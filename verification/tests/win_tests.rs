use board_games::board::Board;
use board_games::board::GameResult;
use board_games::square::Square;

fn verdict(rows: &[&str; 6]) -> Option<GameResult> {
    Board::new_from_str_vec(rows).check_for_win()
}

#[test]
fn test_no_win_on_short_columns() {
    assert_eq!(
        verdict(&["_______", "_______", "_______", "_______", "_______", "_______"]),
        None
    );
    assert_eq!(
        verdict(&["_______", "_______", "_______", "_______", "_______", "R______"]),
        None
    );
    assert_eq!(
        verdict(&["_______", "_______", "_______", "_______", "R______", "R______"]),
        None
    );
    assert_eq!(
        verdict(&["_______", "_______", "_______", "R______", "R______", "R______"]),
        None
    );
}

#[test]
fn test_vertical_wins() {
    let win = Some(GameResult::Win(Square::Red));
    assert_eq!(
        verdict(&["_______", "_______", "R______", "R______", "R______", "R______"]),
        win
    );
    assert_eq!(
        verdict(&["_______", "_______", "_R_____", "_R_____", "_R_____", "_R_____"]),
        win
    );
    assert_eq!(
        verdict(&["_______", "_______", "______R", "______R", "______R", "______R"]),
        win
    );
    assert_eq!(
        verdict(&["_______", "R______", "R______", "R______", "R______", "_______"]),
        win
    );
    assert_eq!(
        verdict(&["_______", "_R_____", "_R_____", "_R_____", "_R_____", "_______"]),
        win
    );
    assert_eq!(
        verdict(&["_______", "______R", "______R", "______R", "______R", "_______"]),
        win
    );
    assert_eq!(
        verdict(&["R______", "R______", "R______", "R______", "_______", "_______"]),
        win
    );
    assert_eq!(
        verdict(&["_R_____", "_R_____", "_R_____", "_R_____", "_______", "_______"]),
        win
    );
    assert_eq!(
        verdict(&["______R", "______R", "______R", "______R", "_______", "_______"]),
        win
    );
}

#[test]
fn test_horizontal_wins() {
    let win = Some(GameResult::Win(Square::Yellow));
    assert_eq!(
        verdict(&["_______", "_______", "_______", "_______", "_______", "YYYY___"]),
        win
    );
    assert_eq!(
        verdict(&["_______", "_______", "_______", "_______", "_______", "_YYYY__"]),
        win
    );
    assert_eq!(
        verdict(&["_______", "_______", "_______", "_______", "_______", "___YYYY"]),
        win
    );
    assert_eq!(
        verdict(&["_______", "_______", "_______", "YYYY___", "_______", "_______"]),
        win
    );
    assert_eq!(
        verdict(&["_______", "_______", "_______", "_YYYY__", "_______", "_______"]),
        win
    );
    assert_eq!(
        verdict(&["_______", "_______", "_______", "___YYYY", "_______", "_______"]),
        win
    );
    assert_eq!(
        verdict(&["YYYY___", "_______", "_______", "_______", "_______", "_______"]),
        win
    );
    assert_eq!(
        verdict(&["_YYYY__", "_______", "_______", "_______", "_______", "_______"]),
        win
    );
    assert_eq!(
        verdict(&["___YYYY", "_______", "_______", "_______", "_______", "_______"]),
        win
    );
}

#[test]
fn test_diagonal_wins() {
    let win = Some(GameResult::Win(Square::Yellow));
    assert_eq!(
        verdict(&["_______", "_______", "___Y___", "__Y____", "_Y_____", "Y______"]),
        win
    );
    assert_eq!(
        verdict(&["___Y___", "__Y____", "_Y_____", "Y______", "_______", "_______"]),
        win
    );
    assert_eq!(
        verdict(&["_______", "_______", "______Y", "_____Y_", "____Y__", "___Y___"]),
        win
    );
    assert_eq!(
        verdict(&["______Y", "_____Y_", "____Y__", "___Y___", "_______", "_______"]),
        win
    );
    assert_eq!(
        verdict(&["Y______", "_Y_____", "__Y____", "___Y___", "_______", "_______"]),
        win
    );
    assert_eq!(
        verdict(&["_______", "_______", "Y______", "_Y_____", "__Y____", "___Y___"]),
        win
    );
    assert_eq!(
        verdict(&["_______", "_______", "___Y___", "____Y__", "_____Y_", "______Y"]),
        win
    );
    assert_eq!(
        verdict(&["___Y___", "____Y__", "_____Y_", "______Y", "_______", "_______"]),
        win
    );
}

#[test]
fn test_draw_on_full_board() {
    assert_eq!(
        verdict(&["RYRYRYR", "RYRYRYR", "RYRYRYR", "YRYRYRY", "YRYRYRY", "YRYRYRY"]),
        Some(GameResult::Draw)
    );
}

#[test]
fn test_vertical_runs_at_every_anchor_row() {
    // A vertical run of four may start at row 0, 1 or 2 of any column.
    for column in 0..7 {
        for start in 0..3 {
            let mut board = Board::new();
            // Supporting tokens below the run alternate to avoid lines.
            for h in 0..start {
                let filler = if h % 2 == 0 { Square::Red } else { Square::Yellow };
                board.apply_move(column, filler).unwrap();
            }
            for _ in 0..4 {
                board.apply_move(column, Square::Yellow).unwrap();
            }
            assert_eq!(
                board.check_for_win(),
                Some(GameResult::Win(Square::Yellow)),
                "column {column}, start row {start}"
            );
        }
    }
}

#[test]
fn test_vertical_run_keeps_column_open_until_full() {
    // Four tokens in column 0 win but leave the column playable; only the
    // sixth token closes it.
    let mut board = Board::new();
    for _ in 0..4 {
        board.apply_move(0, Square::Yellow).unwrap();
    }
    assert_eq!(board.check_for_win(), Some(GameResult::Win(Square::Yellow)));
    assert!(board.list_valid_moves().contains(&0));

    board.apply_move(0, Square::Yellow).unwrap();
    assert!(board.list_valid_moves().contains(&0));

    board.apply_move(0, Square::Yellow).unwrap();
    assert!(!board.list_valid_moves().contains(&0));
    assert!(!board.is_valid_move(0));
}
