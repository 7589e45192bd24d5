use board_games::board::Board;
use board_games::square::Square;

fn eval_of(rows: &[&str; 6]) -> isize {
    Board::new_from_str_vec(rows).eval()
}

#[test]
fn test_eval_empty_board() {
    assert_eq!(
        eval_of(&["_______", "_______", "_______", "_______", "_______", "_______"]),
        0
    );
}

#[test]
fn test_eval_single_tokens_and_columns() {
    assert_eq!(
        eval_of(&["_______", "_______", "_______", "_______", "_______", "Y______"]),
        1
    );
    assert_eq!(
        eval_of(&["_______", "_______", "_______", "_______", "Y______", "Y______"]),
        3
    );
    assert_eq!(
        eval_of(&["_______", "_______", "_______", "Y______", "Y______", "Y______"]),
        6
    );
}

#[test]
fn test_eval_diagonals() {
    assert_eq!(
        eval_of(&["_______", "_______", "___Y___", "_______", "_Y_____", "Y______"]),
        3 + 2 + 1
    );
    assert_eq!(
        eval_of(&["_______", "_______", "___R___", "__Y____", "_R_____", "R______"]),
        1 - (1 + 1 + 1)
    );
    assert_eq!(
        eval_of(&["_______", "_______", "___Y___", "__R____", "_Y_____", "Y______"]),
        (1 + 1 + 1) - 1
    );
    assert_eq!(
        eval_of(&["_______", "_______", "___Y___", "__RR___", "_YRY___", "YRRY___"]),
        (1 + 1 + 1 + 1 + 1) - (3 + 3 + 2 + 1 + 3)
    );
}

#[test]
fn test_eval_square() {
    let board = Board::new_from_str_vec(&[
        "_______", "_______", "_______", "_______", "_______", "YY_____",
    ]);

    let eval = board.eval_square(0, 0, Square::Yellow);

    assert_eq!(eval, 2);
}

#[test]
fn test_eval_of_adjacent_pair() {
    // The leftmost token is worth 2 (itself plus one eastward extension),
    // the right one 1: the whole board scores 3.
    let board = Board::new_from_str_vec(&[
        "_______", "_______", "_______", "_______", "_______", "YY_____",
    ]);

    assert_eq!(board.eval_square(0, 0, Square::Yellow), 2);
    assert_eq!(board.eval_square(0, 1, Square::Yellow), 1);
    assert_eq!(board.eval(), 3);
}

#[test]
fn test_eval_antisymmetric_under_color_swap() {
    let boards = [
        ["_______", "_______", "___Y___", "__RR___", "_YRY___", "YRRY___"],
        ["_______", "_______", "_______", "_______", "Y______", "YR____R"],
        ["RYRYRYR", "RYRYRYR", "RYRYRYR", "YRYRYRY", "YRYRYRY", "YRYRYRY"],
    ];
    for rows in boards.iter() {
        let swapped: Vec<String> = rows
            .iter()
            .map(|row| {
                row.chars()
                    .map(|ch| match ch {
                        'Y' => 'R',
                        'R' => 'Y',
                        other => other,
                    })
                    .collect()
            })
            .collect();
        let swapped_rows: [&str; 6] = [
            &swapped[0], &swapped[1], &swapped[2], &swapped[3], &swapped[4], &swapped[5],
        ];
        assert_eq!(eval_of(rows), -eval_of(&swapped_rows));
    }
}
