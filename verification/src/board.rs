use vstd::prelude::*;

use crate::square::Square;

verus! {

/// Number of columns of the grid.
pub const WIDTH: usize = 7;
/// Number of rows of the grid.
pub const HEIGHT: usize = 6;
/// Number of cells of the grid.
pub const CELLS: usize = 42;

/// Why a requested move could not be applied or undone.
#[derive(Debug, PartialEq, Eq, Structural, Clone, Copy)]
pub enum Error {
    InvalidMove(usize),
}

/// The outcome of a finished game.
#[derive(Debug, PartialEq, Eq, Structural, Clone, Copy)]
pub enum GameResult {
    Win(Square),
    Draw,
}

/// A grid position is legal when both coordinates lie on the board.
/// Row 0 is the bottom row; column 0 is the leftmost column.
pub open spec fn in_bounds(r: int, c: int) -> bool {
    0 <= r < HEIGHT && 0 <= c < WIDTH
}

/// The square at row `r`, column `c` of a flattened grid.
pub open spec fn cell(g: Seq<Square>, r: int, c: int) -> Square {
    g[r * (WIDTH as int) + c]
}

/// A flattened grid of the fixed board dimensions.
pub open spec fn grid_wf(g: Seq<Square>) -> bool {
    g.len() == CELLS
}

/// Every cell of the grid is empty.
pub open spec fn all_empty(g: Seq<Square>) -> bool {
    forall|i: int| 0 <= i < g.len() ==> g[i] == Square::Empty
}

/// No cell of the grid is empty.
pub open spec fn grid_full(g: Seq<Square>) -> bool {
    forall|i: int| 0 <= i < g.len() ==> g[i] != Square::Empty
}

/// A column can still receive a token when its topmost cell is empty.
pub open spec fn column_open(g: Seq<Square>, c: int) -> bool {
    cell(g, HEIGHT - 1, c) == Square::Empty
}

/// The lowest empty row of column `c` at or above row `r`,
/// or `HEIGHT` when every cell from `r` up is occupied.
pub open spec fn drop_row_from(g: Seq<Square>, c: int, r: int) -> int
    decreases HEIGHT - r,
{
    if r < 0 || r >= HEIGHT {
        HEIGHT as int
    } else if cell(g, r, c) == Square::Empty {
        r
    } else {
        drop_row_from(g, c, r + 1)
    }
}

/// The row that a token dropped into column `c` comes to rest in,
/// or `HEIGHT` when the column has no empty cell.
pub open spec fn drop_row(g: Seq<Square>, c: int) -> int {
    drop_row_from(g, c, 0)
}

/// A move into column `c` succeeds when the column exists and has room.
pub open spec fn apply_ok(g: Seq<Square>, c: int) -> bool {
    0 <= c < WIDTH && drop_row(g, c) < HEIGHT
}

/// The grid after a successful move of `color` into column `c`.
pub open spec fn apply_result(g: Seq<Square>, c: int, color: Square) -> Seq<Square> {
    g.update(drop_row(g, c) * (WIDTH as int) + c, color)
}

/// The highest row of column `c` at or below row `r` holding `color`
/// with only emptiness directly above it, or `-1` when there is none.
pub open spec fn remove_row_down(g: Seq<Square>, c: int, color: Square, r: int) -> int
    decreases r + 1,
{
    if r < 0 || r >= HEIGHT {
        -1
    } else if cell(g, r, c) == color && (r == HEIGHT - 1 || cell(g, r + 1, c) == Square::Empty) {
        r
    } else {
        remove_row_down(g, c, color, r - 1)
    }
}

/// The row from which undoing a move of `color` in column `c` removes a
/// token, or `-1` when no cell qualifies.
pub open spec fn remove_row(g: Seq<Square>, c: int, color: Square) -> int {
    remove_row_down(g, c, color, HEIGHT - 1)
}

/// Undoing a move of `color` in column `c` succeeds when the column
/// exists and its topmost token is a matching one.
pub open spec fn remove_ok(g: Seq<Square>, c: int, color: Square) -> bool {
    0 <= c < WIDTH && remove_row(g, c, color) >= 0
}

/// The grid after a successful undo of a move of `color` in column `c`.
pub open spec fn remove_result(g: Seq<Square>, c: int, color: Square) -> Seq<Square> {
    g.update(remove_row(g, c, color) * (WIDTH as int) + c, Square::Empty)
}

/// The open columns at or to the right of column `c`, in ascending order.
pub open spec fn valid_moves_from(g: Seq<Square>, c: int) -> Seq<usize>
    decreases WIDTH - c,
{
    if c < 0 || c >= WIDTH {
        Seq::empty()
    } else if column_open(g, c) {
        seq![c as usize] + valid_moves_from(g, c + 1)
    } else {
        valid_moves_from(g, c + 1)
    }
}

/// All columns that can still receive a token, in ascending order.
pub open spec fn valid_moves(g: Seq<Square>) -> Seq<usize> {
    valid_moves_from(g, 0)
}

/// The listed moves are exactly the open columns, listed in strictly
/// ascending order.
pub proof fn lemma_valid_moves_from_props(g: Seq<Square>, c: int)
    requires
        0 <= c <= WIDTH,
    ensures
        valid_moves_from(g, c).len() <= WIDTH - c,
        forall|k: int|
            0 <= k < valid_moves_from(g, c).len() ==> c <= #[trigger] valid_moves_from(g, c)[k]
                < WIDTH && column_open(g, valid_moves_from(g, c)[k] as int),
        forall|c2: int|
            c <= c2 < WIDTH && column_open(g, c2) ==> valid_moves_from(g, c).contains(c2 as usize),
        forall|k1: int, k2: int|
            0 <= k1 < k2 < valid_moves_from(g, c).len() ==> valid_moves_from(g, c)[k1]
                < valid_moves_from(g, c)[k2],
    decreases WIDTH - c,
{
    if c < WIDTH {
        lemma_valid_moves_from_props(g, c + 1);
        let rest = valid_moves_from(g, c + 1);
        if column_open(g, c) {
            let whole = valid_moves_from(g, c);
            assert(whole == seq![c as usize] + rest);
            assert(whole[0] == c as usize);
            assert(forall|k: int| 0 <= k < rest.len() ==> whole[k + 1] == rest[k]);
            assert forall|c2: int| c <= c2 < WIDTH && column_open(g, c2) implies whole.contains(
                c2 as usize,
            ) by {
                if c2 == c {
                    assert(whole[0] == c2 as usize);
                } else {
                    let k = choose|k: int| 0 <= k < rest.len() && rest[k] == c2 as usize;
                    assert(whole[k + 1] == c2 as usize);
                }
            }
        } else {
            assert forall|c2: int| c <= c2 < WIDTH && column_open(g, c2) implies valid_moves_from(
                g,
                c,
            ).contains(c2 as usize) by {
                assert(c2 != c);
            }
        }
    }
}

/// Restatement of the properties above for the full move list.
pub proof fn lemma_valid_moves_props(g: Seq<Square>)
    ensures
        valid_moves(g).len() <= WIDTH,
        forall|k: int|
            0 <= k < valid_moves(g).len() ==> 0 <= #[trigger] valid_moves(g)[k] < WIDTH
                && column_open(g, valid_moves(g)[k] as int),
        forall|c2: int|
            0 <= c2 < WIDTH && column_open(g, c2) ==> valid_moves(g).contains(c2 as usize),
        forall|k1: int, k2: int|
            0 <= k1 < k2 < valid_moves(g).len() ==> valid_moves(g)[k1] < valid_moves(g)[k2],
{
    lemma_valid_moves_from_props(g, 0);
}

/// A step lands on the board and on a cell that does not block `color`:
/// it holds `color` itself or is still empty.
pub open spec fn step_open(g: Seq<Square>, r: int, c: int, color: Square) -> bool {
    in_bounds(r, c) && (cell(g, r, c) == color || cell(g, r, c) == Square::Empty)
}

/// A step lands on the board and on a cell holding `color`.
pub open spec fn step_hit(g: Seq<Square>, r: int, c: int, color: Square) -> bool {
    in_bounds(r, c) && cell(g, r, c) == color
}

/// All three steps away from the anchor in direction `(dr, dc)` stay on the
/// board and are not blocked by the opposite color.
pub open spec fn dir_open(g: Seq<Square>, r: int, c: int, dr: int, dc: int, color: Square) -> bool {
    step_open(g, r + dr, c + dc, color) && step_open(g, r + 2 * dr, c + 2 * dc, color) && step_open(
        g,
        r + 3 * dr,
        c + 3 * dc,
        color,
    )
}

/// How many of the three steps in direction `(dr, dc)` hold `color`.
pub open spec fn dir_hits(g: Seq<Square>, r: int, c: int, dr: int, dc: int, color: Square) -> int {
    (if step_hit(g, r + dr, c + dc, color) {
        1int
    } else {
        0int
    }) + (if step_hit(g, r + 2 * dr, c + 2 * dc, color) {
        1int
    } else {
        0int
    }) + (if step_hit(g, r + 3 * dr, c + 3 * dc, color) {
        1int
    } else {
        0int
    })
}

/// The contribution of one direction to a token's worth: the number of
/// matching tokens among the next three steps, counted only when the whole
/// stretch is unblocked, as a proxy for a line that could still grow to four.
pub open spec fn dir_score(g: Seq<Square>, r: int, c: int, dr: int, dc: int, color: Square) -> int {
    if dir_open(g, r, c, dr, dc, color) {
        dir_hits(g, r, c, dr, dc, color)
    } else {
        0
    }
}

/// The worth of a token of `color` at `(r, c)`: one for the token itself
/// plus the contributions of the four forward directions (north, east,
/// north-east, north-west).
pub open spec fn eval_square_spec(g: Seq<Square>, r: int, c: int, color: Square) -> int {
    if color == Square::Empty {
        0
    } else {
        1 + dir_score(g, r, c, 1, 0, color) + dir_score(g, r, c, 0, 1, color) + dir_score(
            g,
            r,
            c,
            1,
            1,
            color,
        ) + dir_score(g, r, c, 1, -1, color)
    }
}

/// The signed contribution of the cell at `(r, c)` to the board score:
/// positive for the first color, negative for the second, zero when empty.
pub open spec fn cell_score(g: Seq<Square>, r: int, c: int) -> int {
    match cell(g, r, c) {
        Square::Yellow => eval_square_spec(g, r, c, Square::Yellow),
        Square::Red => -eval_square_spec(g, r, c, Square::Red),
        Square::Empty => 0,
    }
}

/// The sum of the signed contributions of the first `k` cells in row-major
/// order from the bottom row up.
pub open spec fn eval_upto(g: Seq<Square>, k: int) -> int
    decreases k,
{
    if k <= 0 {
        0
    } else {
        eval_upto(g, k - 1) + cell_score(g, (k - 1) / (WIDTH as int), (k - 1) % (WIDTH as int))
    }
}

/// The heuristic score of the whole board.
pub open spec fn eval_spec(g: Seq<Square>) -> int {
    eval_upto(g, CELLS as int)
}

/// Each cell contributes at most 13 in magnitude, so a partial sum over `k`
/// cells stays within `13 * k`.
pub proof fn lemma_eval_upto_bounds(g: Seq<Square>, k: int)
    requires
        0 <= k,
    ensures
        -13 * k <= eval_upto(g, k) <= 13 * k,
    decreases k,
{
    if k > 0 {
        lemma_eval_upto_bounds(g, k - 1);
    }
}

/// The three steps away from the anchor in direction `(dr, dc)` all hold
/// `color`: together with the anchor they form a line of four.
pub open spec fn dir_line(g: Seq<Square>, r: int, c: int, dr: int, dc: int, color: Square) -> bool {
    step_hit(g, r + dr, c + dc, color) && step_hit(g, r + 2 * dr, c + 2 * dc, color) && step_hit(
        g,
        r + 3 * dr,
        c + 3 * dc,
        color,
    )
}

/// A cell at `(r, c)` anchors a winning line of `color` in one of the four
/// forward directions (north, east, north-east, north-west).
pub open spec fn wins_at(g: Seq<Square>, r: int, c: int, color: Square) -> bool {
    color != Square::Empty && (dir_line(g, r, c, 1, 0, color) || dir_line(g, r, c, 0, 1, color)
        || dir_line(g, r, c, 1, 1, color) || dir_line(g, r, c, 1, -1, color))
}

/// Somewhere on the board, four cells of `color` form an unbroken line.
pub open spec fn has_win(g: Seq<Square>, color: Square) -> bool {
    exists|r: int, c: int| in_bounds(r, c) && cell(g, r, c) == color && wins_at(g, r, c, color)
}

/// The color of the first winning anchor at or after cell `k` in row-major
/// order from the bottom row up, if any.
pub open spec fn win_scan_from(g: Seq<Square>, k: int) -> Option<Square>
    decreases CELLS - k,
{
    if k < 0 || k >= CELLS {
        None
    } else {
        let r = k / (WIDTH as int);
        let c = k % (WIDTH as int);
        if cell(g, r, c) != Square::Empty && wins_at(g, r, c, cell(g, r, c)) {
            Some(cell(g, r, c))
        } else {
            win_scan_from(g, k + 1)
        }
    }
}

/// The color of the first winning anchor of the whole board, if any.
pub open spec fn win_scan(g: Seq<Square>) -> Option<Square> {
    win_scan_from(g, 0)
}

/// The verdict of the terminal check: the first winning color found in the
/// scan, a draw on a full board without one, nothing otherwise.
pub open spec fn check_result(g: Seq<Square>) -> Option<GameResult> {
    match win_scan(g) {
        Some(color) => Some(GameResult::Win(color)),
        None => if grid_full(g) {
            Some(GameResult::Draw)
        } else {
            None
        },
    }
}

/// The square that one character of a textual row stands for.
pub open spec fn square_of_char(ch: char) -> Square {
    if ch == 'R' {
        Square::Red
    } else if ch == 'Y' {
        Square::Yellow
    } else {
        Square::Empty
    }
}

/// The square that row text `s` prescribes for column `c`; a column the
/// text does not reach stays empty.
pub open spec fn row_square(s: Seq<char>, c: int) -> Square {
    if 0 <= c < s.len() {
        square_of_char(s[c])
    } else {
        Square::Empty
    }
}

/// Updating one cell changes that cell and no other.
pub proof fn lemma_cell_update(g: Seq<Square>, r: int, c: int, v: Square)
    requires
        grid_wf(g),
        in_bounds(r, c),
    ensures
        grid_wf(g.update(r * (WIDTH as int) + c, v)),
        cell(g.update(r * (WIDTH as int) + c, v), r, c) == v,
        forall|r2: int, c2: int|
            in_bounds(r2, c2) && !(r2 == r && c2 == c) ==> cell(
                g.update(r * (WIDTH as int) + c, v),
                r2,
                c2,
            ) == cell(g, r2, c2),
{
    assert forall|r2: int, c2: int|
        in_bounds(r2, c2) && !(r2 == r && c2 == c) implies cell(
        g.update(r * (WIDTH as int) + c, v),
        r2,
        c2,
    ) == cell(g, r2, c2) by {
        assert(r2 * (WIDTH as int) + c2 != r * (WIDTH as int) + c);
    }
}

/// What `drop_row_from` finds: the first empty cell scanning upward.
pub proof fn lemma_drop_row_from(g: Seq<Square>, c: int, r: int)
    requires
        0 <= r <= HEIGHT,
    ensures
        r <= drop_row_from(g, c, r) <= HEIGHT,
        drop_row_from(g, c, r) < HEIGHT ==> cell(g, drop_row_from(g, c, r), c) == Square::Empty,
        forall|r2: int| r <= r2 < drop_row_from(g, c, r) ==> cell(g, r2, c) != Square::Empty,
    decreases HEIGHT - r,
{
    if r < HEIGHT && cell(g, r, c) != Square::Empty {
        lemma_drop_row_from(g, c, r + 1);
    }
}

/// Column `c` holds exactly `h` tokens, stacked from the bottom.
pub open spec fn stacked(g: Seq<Square>, c: int, h: int) -> bool {
    forall|r: int| 0 <= r < HEIGHT ==> (cell(g, r, c) != Square::Empty <==> r < h)
}

/// Gravity in column `c`: every token rests on a token below it.
pub open spec fn column_gravity(g: Seq<Square>, c: int) -> bool {
    forall|r: int|
        1 <= r < HEIGHT && #[trigger] cell(g, r, c) != Square::Empty ==> cell(g, r - 1, c)
            != Square::Empty
}

/// The grid after `n` tokens of `color` dropped one after another into
/// column `c`.
pub open spec fn apply_n(g: Seq<Square>, c: int, color: Square, n: nat) -> Seq<Square>
    decreases n,
{
    if n == 0 {
        g
    } else {
        apply_result(apply_n(g, c, color, (n - 1) as nat), c, color)
    }
}

/// In a column stacked `h` high the next token comes to rest in row `h`.
proof fn lemma_drop_row_stacked(g: Seq<Square>, c: int, h: int, r: int)
    requires
        0 <= r <= h < HEIGHT,
        stacked(g, c, h),
    ensures
        drop_row_from(g, c, r) == h,
    decreases h - r,
{
    if r < h {
        lemma_drop_row_stacked(g, c, h, r + 1);
    }
}

/// Dropping a token onto a stack of `h` tokens succeeds and leaves a stack
/// of `h + 1`, touching no other cell.
pub proof fn lemma_apply_to_stack(g: Seq<Square>, c: int, color: Square, h: int)
    requires
        grid_wf(g),
        0 <= c < WIDTH,
        color != Square::Empty,
        0 <= h < HEIGHT,
        stacked(g, c, h),
    ensures
        apply_ok(g, c),
        drop_row(g, c) == h,
        grid_wf(apply_result(g, c, color)),
        stacked(apply_result(g, c, color), c, h + 1),
        forall|r2: int, c2: int|
            in_bounds(r2, c2) && !(r2 == h && c2 == c) ==> cell(apply_result(g, c, color), r2, c2)
                == cell(g, r2, c2),
{
    lemma_drop_row_stacked(g, c, h, 0);
    lemma_cell_update(g, h, c, color);
    assert(apply_result(g, c, color) == g.update(h * (WIDTH as int) + c, color));
    assert forall|r: int| 0 <= r < HEIGHT implies (cell(apply_result(g, c, color), r, c)
        != Square::Empty <==> r < h + 1) by {
        assert(in_bounds(r, c));
        if r == h {
            assert(cell(apply_result(g, c, color), r, c) == color);
        }
    }
}

/// Dropping a token into a fully stacked column is refused.
pub proof fn lemma_apply_to_full_column(g: Seq<Square>, c: int)
    requires
        grid_wf(g),
        0 <= c < WIDTH,
        stacked(g, c, HEIGHT as int),
    ensures
        !apply_ok(g, c),
{
    lemma_drop_row_from(g, c, 0);
    if drop_row(g, c) < HEIGHT {
        assert(cell(g, drop_row(g, c), c) == Square::Empty);
    }
}

/// After `n` drops into an initially empty column the column is stacked
/// exactly `n` high.
proof fn lemma_fill_column_stacked(g: Seq<Square>, c: int, color: Square, n: nat)
    requires
        grid_wf(g),
        0 <= c < WIDTH,
        color != Square::Empty,
        n <= HEIGHT,
        forall|r: int| 0 <= r < HEIGHT ==> cell(g, r, c) == Square::Empty,
    ensures
        grid_wf(apply_n(g, c, color, n)),
        stacked(apply_n(g, c, color, n), c, n as int),
    decreases n,
{
    if n == 0 {
        assert(stacked(g, c, 0));
    } else {
        lemma_fill_column_stacked(g, c, color, (n - 1) as nat);
        lemma_apply_to_stack(apply_n(g, c, color, (n - 1) as nat), c, color, n as int - 1);
    }
}

/// Into an empty column each of `HEIGHT` consecutive drops of `color`
/// succeeds, and one further drop is refused.
pub proof fn lemma_fill_column(g: Seq<Square>, c: int, color: Square)
    requires
        grid_wf(g),
        0 <= c < WIDTH,
        color != Square::Empty,
        forall|r: int| 0 <= r < HEIGHT ==> cell(g, r, c) == Square::Empty,
    ensures
        forall|n: nat| n < HEIGHT ==> apply_ok(#[trigger] apply_n(g, c, color, n), c),
        !apply_ok(apply_n(g, c, color, HEIGHT as nat), c),
{
    assert forall|n: nat| n < HEIGHT implies apply_ok(#[trigger] apply_n(g, c, color, n), c) by {
        lemma_fill_column_stacked(g, c, color, n);
        lemma_apply_to_stack(apply_n(g, c, color, n), c, color, n as int);
    }
    lemma_fill_column_stacked(g, c, color, HEIGHT as nat);
    lemma_apply_to_full_column(apply_n(g, c, color, HEIGHT as nat), c);
}

/// A token anywhere in column `c` implies tokens all the way down.
proof fn lemma_gravity_below(g: Seq<Square>, c: int, r: int, r2: int)
    requires
        column_gravity(g, c),
        0 <= r2 <= r < HEIGHT,
        cell(g, r, c) != Square::Empty,
    ensures
        cell(g, r2, c) != Square::Empty,
    decreases r - r2,
{
    if r2 < r {
        lemma_gravity_below(g, c, r - 1, r2);
    }
}

/// Under gravity a column is stacked exactly up to its drop row.
#[verifier::rlimit(60)]
pub proof fn lemma_gravity_stacked(g: Seq<Square>, c: int)
    requires
        grid_wf(g),
        0 <= c < WIDTH,
        column_gravity(g, c),
    ensures
        stacked(g, c, drop_row(g, c)),
{
    lemma_drop_row_from(g, c, 0);
    let h = drop_row(g, c);
    assert forall|r: int| 0 <= r < HEIGHT implies (cell(g, r, c) != Square::Empty <==> r < h) by {
        if r >= h && cell(g, r, c) != Square::Empty {
            lemma_gravity_below(g, c, r, h);
        }
    }
}

/// Scanning down from `r`, rows that do not hold `color` are passed over
/// until the sought row is reached.
proof fn lemma_remove_row_down_to(g: Seq<Square>, c: int, color: Square, r: int, target: int)
    requires
        0 <= target <= r < HEIGHT,
        cell(g, target, c) == color,
        target == HEIGHT - 1 || cell(g, target + 1, c) == Square::Empty,
        forall|r2: int| target < r2 <= r ==> cell(g, r2, c) != color,
    ensures
        remove_row_down(g, c, color, r) == target,
    decreases r - target,
{
    if r > target {
        lemma_remove_row_down_to(g, c, color, r - 1, target);
    }
}

/// Dropping a token and at once undoing it restores the board, at any
/// stack height and in any column, provided the column obeys gravity.
#[verifier::rlimit(60)]
pub proof fn lemma_apply_remove_round_trip(g: Seq<Square>, c: int, color: Square)
    requires
        grid_wf(g),
        0 <= c < WIDTH,
        color != Square::Empty,
        column_gravity(g, c),
        apply_ok(g, c),
    ensures
        remove_ok(apply_result(g, c, color), c, color),
        remove_result(apply_result(g, c, color), c, color) == g,
{
    let h = drop_row(g, c);
    lemma_gravity_stacked(g, c);
    lemma_apply_to_stack(g, c, color, h);
    let g2 = apply_result(g, c, color);
    assert forall|r2: int| h < r2 <= HEIGHT - 1 implies cell(g2, r2, c) != color by {
        assert(cell(g2, r2, c) == Square::Empty);
    }
    if h < HEIGHT - 1 {
        assert(cell(g2, h + 1, c) == Square::Empty);
    }
    lemma_remove_row_down_to(g2, c, color, HEIGHT - 1, h);
    lemma_cell_update(g2, h, c, Square::Empty);
    assert(remove_row(g2, c, color) == h);
    assert(cell(g, h, c) == Square::Empty);
    assert(remove_result(g2, c, color) == g2.update(h * (WIDTH as int) + c, Square::Empty));
    assert(g2 == g.update(h * (WIDTH as int) + c, color));
    assert(remove_result(g2, c, color) =~= g);
}

/// Gravity holds of the empty board and is kept by every successful move:
/// boards reached from the empty board through moves obey it everywhere.
#[verifier::rlimit(60)]
pub proof fn lemma_apply_preserves_gravity(g: Seq<Square>, c: int, color: Square)
    requires
        grid_wf(g),
        0 <= c < WIDTH,
        color != Square::Empty,
        apply_ok(g, c),
        forall|c2: int| 0 <= c2 < WIDTH ==> column_gravity(g, c2),
    ensures
        forall|c2: int| 0 <= c2 < WIDTH ==> column_gravity(apply_result(g, c, color), c2),
{
    let g2 = apply_result(g, c, color);
    let h = drop_row(g, c);
    lemma_gravity_stacked(g, c);
    lemma_apply_to_stack(g, c, color, h);
    assert forall|c2: int| 0 <= c2 < WIDTH implies column_gravity(g2, c2) by {
        if c2 == c {
            assert(stacked(g2, c, h + 1));
            assert forall|r: int|
                1 <= r < HEIGHT && #[trigger] cell(g2, r, c2) != Square::Empty implies cell(
                g2,
                r - 1,
                c2,
            ) != Square::Empty by {
                assert(cell(g2, r, c) != Square::Empty);
                assert(r < h + 1);
                assert(r - 1 < h + 1);
                assert(cell(g2, r - 1, c) != Square::Empty);
            }
        } else {
            assert forall|r: int|
                1 <= r < HEIGHT && #[trigger] cell(g2, r, c2) != Square::Empty implies cell(
                g2,
                r - 1,
                c2,
            ) != Square::Empty by {
                assert(column_gravity(g, c2));
                assert(cell(g2, r, c2) == cell(g, r, c2));
                assert(cell(g2, r - 1, c2) == cell(g, r - 1, c2));
                assert(cell(g, r, c2) != Square::Empty);
                assert(cell(g, r - 1, c2) != Square::Empty);
            }
        }
    }
}

/// A board with no winning line for either color has no winning anchor
/// anywhere in the scan.
proof fn lemma_win_scan_from_none(g: Seq<Square>, k: int)
    requires
        grid_wf(g),
        0 <= k <= CELLS,
        !has_win(g, Square::Yellow),
        !has_win(g, Square::Red),
    ensures
        win_scan_from(g, k) == None::<Square>,
    decreases CELLS - k,
{
    if k < CELLS {
        let r = k / (WIDTH as int);
        let c = k % (WIDTH as int);
        assert(in_bounds(r, c));
        if cell(g, r, c) != Square::Empty && wins_at(g, r, c, cell(g, r, c)) {
            assert(has_win(g, cell(g, r, c)));
        }
        lemma_win_scan_from_none(g, k + 1);
    }
}

/// A winner reported by the scan really has a winning anchor.
proof fn lemma_win_scan_from_finds(g: Seq<Square>, k: int)
    requires
        grid_wf(g),
        0 <= k <= CELLS,
    ensures
        win_scan_from(g, k) matches Some(color) ==> has_win(g, color),
    decreases CELLS - k,
{
    if k < CELLS {
        let r = k / (WIDTH as int);
        let c = k % (WIDTH as int);
        assert(in_bounds(r, c));
        if cell(g, r, c) != Square::Empty && wins_at(g, r, c, cell(g, r, c)) {
            assert(has_win(g, cell(g, r, c)));
        } else {
            lemma_win_scan_from_finds(g, k + 1);
        }
    }
}

/// A full board offers no moves; without a winning line for either color
/// its verdict is a draw.
pub proof fn lemma_full_board(g: Seq<Square>)
    requires
        grid_wf(g),
        grid_full(g),
    ensures
        valid_moves(g).len() == 0,
        !has_win(g, Square::Yellow) && !has_win(g, Square::Red) ==> check_result(g) == Some(
            GameResult::Draw,
        ),
{
    lemma_valid_moves_props(g);
    if valid_moves(g).len() > 0 {
        let c = valid_moves(g)[0];
        assert(column_open(g, c as int));
        assert(cell(g, HEIGHT - 1, c as int) != Square::Empty);
    }
    if !has_win(g, Square::Yellow) && !has_win(g, Square::Red) {
        lemma_win_scan_from_none(g, 0);
    }
}

/// The scan cannot pass a winning anchor by.
proof fn lemma_win_scan_from_reaches(g: Seq<Square>, k: int, k0: int)
    requires
        grid_wf(g),
        0 <= k <= k0 < CELLS,
        cell(g, k0 / (WIDTH as int), k0 % (WIDTH as int)) != Square::Empty,
        wins_at(g, k0 / (WIDTH as int), k0 % (WIDTH as int), cell(
            g,
            k0 / (WIDTH as int),
            k0 % (WIDTH as int),
        )),
    ensures
        win_scan_from(g, k) is Some,
    decreases k0 - k,
{
    if k < k0 {
        lemma_win_scan_from_reaches(g, k + 1, k0);
    }
}

/// A line of four equal tokens, anchored anywhere legal in any of the four
/// scan directions, is reported as a win for its color whenever the other
/// color has no line of its own.
pub proof fn lemma_line_win(g: Seq<Square>, r: int, c: int, dr: int, dc: int, color: Square)
    requires
        grid_wf(g),
        color != Square::Empty,
        (dr == 1 && dc == 0) || (dr == 0 && dc == 1) || (dr == 1 && dc == 1) || (dr == 1 && dc
            == -1),
        in_bounds(r, c),
        in_bounds(r + 3 * dr, c + 3 * dc),
        forall|l: int| 0 <= l < 4 ==> #[trigger] cell(g, r + l * dr, c + l * dc) == color,
        !has_win(g, color.flip_spec()),
    ensures
        has_win(g, color),
        check_result(g) == Some(GameResult::Win(color)),
{
    assert(cell(g, r + 0 * dr, c + 0 * dc) == color);
    assert(cell(g, r + 1 * dr, c + 1 * dc) == color);
    assert(cell(g, r + 2 * dr, c + 2 * dc) == color);
    assert(cell(g, r + 3 * dr, c + 3 * dc) == color);
    assert(in_bounds(r + 1 * dr, c + 1 * dc));
    assert(in_bounds(r + 2 * dr, c + 2 * dc));
    assert(dir_line(g, r, c, dr, dc, color));
    assert(wins_at(g, r, c, color));
    assert(has_win(g, color));
    let k0 = r * (WIDTH as int) + c;
    assert(k0 / (WIDTH as int) == r && k0 % (WIDTH as int) == c);
    lemma_win_scan_from_reaches(g, 0, k0);
    let found = win_scan(g)->Some_0;
    lemma_win_scan_from_finds(g, 0);
    assert(has_win(g, found));
    if found == Square::Empty {
        let (r2, c2) = choose|r2: int, c2: int|
            in_bounds(r2, c2) && cell(g, r2, c2) == found && wins_at(g, r2, c2, found);
        assert(wins_at(g, r2, c2, found));
    }
    assert(found == color);
}

/// The grid with every token's color exchanged.
pub open spec fn flip_grid(g: Seq<Square>) -> Seq<Square> {
    Seq::new(g.len(), |i: int| g[i].flip_spec())
}

/// The empty board scores zero up to any cell.
proof fn lemma_eval_upto_empty(g: Seq<Square>, k: int)
    requires
        grid_wf(g),
        all_empty(g),
        0 <= k <= CELLS,
    ensures
        eval_upto(g, k) == 0,
    decreases k,
{
    if k > 0 {
        lemma_eval_upto_empty(g, k - 1);
        let r = (k - 1) / (WIDTH as int);
        let c = (k - 1) % (WIDTH as int);
        assert(r * (WIDTH as int) + c == k - 1);
        assert(cell(g, r, c) == Square::Empty);
    }
}

/// The empty board scores zero.
pub proof fn lemma_eval_empty(g: Seq<Square>)
    requires
        grid_wf(g),
        all_empty(g),
    ensures
        eval_spec(g) == 0,
{
    lemma_eval_upto_empty(g, CELLS as int);
}

/// Exchanging the colors turns a step for one color into the same step
/// for the other.
proof fn lemma_step_flip(g: Seq<Square>, r: int, c: int, color: Square)
    requires
        grid_wf(g),
        color != Square::Empty,
    ensures
        step_open(flip_grid(g), r, c, color.flip_spec()) == step_open(g, r, c, color),
        step_hit(flip_grid(g), r, c, color.flip_spec()) == step_hit(g, r, c, color),
{
    if in_bounds(r, c) {
        assert(flip_grid(g)[r * (WIDTH as int) + c] == g[r * (WIDTH as int) + c].flip_spec());
    }
}

/// Exchanging the colors preserves the worth of a token, counted for its
/// new color.
proof fn lemma_eval_square_flip(g: Seq<Square>, r: int, c: int, color: Square)
    requires
        grid_wf(g),
        color != Square::Empty,
    ensures
        eval_square_spec(flip_grid(g), r, c, color.flip_spec()) == eval_square_spec(
            g,
            r,
            c,
            color,
        ),
{
    let dirs: Seq<(int, int)> = seq![(1int, 0int), (0int, 1int), (1int, 1int), (1int, -1int)];
    assert forall|d: int| 0 <= d < 4 implies dir_score(
        flip_grid(g),
        r,
        c,
        dirs[d].0,
        dirs[d].1,
        color.flip_spec(),
    ) == dir_score(g, r, c, dirs[d].0, dirs[d].1, color) by {
        let dr = dirs[d].0;
        let dc = dirs[d].1;
        lemma_step_flip(g, r + dr, c + dc, color);
        lemma_step_flip(g, r + 2 * dr, c + 2 * dc, color);
        lemma_step_flip(g, r + 3 * dr, c + 3 * dc, color);
    }
    assert(dir_score(flip_grid(g), r, c, dirs[0].0, dirs[0].1, color.flip_spec()) == dir_score(
        g,
        r,
        c,
        1,
        0,
        color,
    ));
    assert(dir_score(flip_grid(g), r, c, dirs[1].0, dirs[1].1, color.flip_spec()) == dir_score(
        g,
        r,
        c,
        0,
        1,
        color,
    ));
    assert(dir_score(flip_grid(g), r, c, dirs[2].0, dirs[2].1, color.flip_spec()) == dir_score(
        g,
        r,
        c,
        1,
        1,
        color,
    ));
    assert(dir_score(flip_grid(g), r, c, dirs[3].0, dirs[3].1, color.flip_spec()) == dir_score(
        g,
        r,
        c,
        1,
        -1,
        color,
    ));
}

/// Exchanging the colors negates the contribution of every cell.
proof fn lemma_cell_score_flip(g: Seq<Square>, r: int, c: int)
    requires
        grid_wf(g),
        in_bounds(r, c),
    ensures
        cell_score(flip_grid(g), r, c) == -cell_score(g, r, c),
{
    assert(flip_grid(g)[r * (WIDTH as int) + c] == g[r * (WIDTH as int) + c].flip_spec());
    match cell(g, r, c) {
        Square::Yellow => lemma_eval_square_flip(g, r, c, Square::Yellow),
        Square::Red => lemma_eval_square_flip(g, r, c, Square::Red),
        Square::Empty => (),
    }
}

/// Exchanging the colors negates the partial sums of the score.
proof fn lemma_eval_upto_flip(g: Seq<Square>, k: int)
    requires
        grid_wf(g),
        0 <= k <= CELLS,
    ensures
        eval_upto(flip_grid(g), k) == -eval_upto(g, k),
    decreases k,
{
    if k > 0 {
        lemma_eval_upto_flip(g, k - 1);
        let r = (k - 1) / (WIDTH as int);
        let c = (k - 1) % (WIDTH as int);
        assert(r * (WIDTH as int) + c == k - 1);
        assert(in_bounds(r, c));
        lemma_cell_score_flip(g, r, c);
    }
}

/// Exchanging the two colors on the whole board negates its score.
pub proof fn lemma_eval_antisymmetric(g: Seq<Square>)
    requires
        grid_wf(g),
    ensures
        eval_spec(flip_grid(g)) == -eval_spec(g),
{
    lemma_eval_upto_flip(g, CELLS as int);
}

/// A successful move writes its color at the drop cell, which was empty,
/// and leaves every other cell alone.
pub proof fn lemma_apply_cells(g: Seq<Square>, c: int, color: Square)
    requires
        grid_wf(g),
        apply_ok(g, c),
    ensures
        grid_wf(apply_result(g, c, color)),
        in_bounds(drop_row(g, c), c),
        cell(g, drop_row(g, c), c) == Square::Empty,
        cell(apply_result(g, c, color), drop_row(g, c), c) == color,
        forall|r2: int, c2: int|
            in_bounds(r2, c2) && !(r2 == drop_row(g, c) && c2 == c) ==> cell(
                apply_result(g, c, color),
                r2,
                c2,
            ) == cell(g, r2, c2),
{
    lemma_drop_row_from(g, c, 0);
    lemma_cell_update(g, drop_row(g, c), c, color);
}

/// Boards whose cells all agree are equal boards — `==` on boards goes by
/// cell contents alone — so positions reached by different move orders
/// collapse to one value.
pub proof fn lemma_transposition_equal(a: &Board, b: &Board)
    requires
        a.wf(),
        b.wf(),
        forall|r: int, c: int| in_bounds(r, c) ==> cell(a@, r, c) == cell(b@, r, c),
    ensures
        a@ == b@,
{
    assert forall|i: int| 0 <= i < CELLS implies a@[i] == b@[i] by {
        let r = i / (WIDTH as int);
        let c = i % (WIDTH as int);
        assert(in_bounds(r, c));
        assert(r * (WIDTH as int) + c == i);
        assert(cell(a@, r, c) == cell(b@, r, c));
    }
    assert(a@ =~= b@);
}

/// The fixed-size playing grid, stored row by row from the bottom up.
#[derive(Debug, Hash)]
pub struct Board {
    grid: Vec<Square>,
}

impl View for Board {
    type V = Seq<Square>;

    closed spec fn view(&self) -> Seq<Square> {
        self.grid@
    }
}

impl Board {
    /// The board always holds exactly one square per grid cell.
    pub open spec fn wf(self) -> bool {
        grid_wf(self@)
    }

    /// An entirely empty board.
    pub fn new() -> (r: Self)
        ensures
            r.wf(),
            all_empty(r@),
    {
        let mut grid: Vec<Square> = Vec::new();
        let mut k: usize = 0;
        while k < CELLS
            invariant
                grid@.len() == k,
                k <= CELLS,
                all_empty(grid@),
            decreases CELLS - k,
        {
            grid.push(Square::Empty);
            k = k + 1;
        }
        Board { grid }
    }

    /// True when no token has been placed yet.
    pub fn is_empty(&self) -> (r: bool)
        requires
            self.wf(),
        ensures
            r == all_empty(self@),
    {
        let mut k: usize = 0;
        while k < CELLS
            invariant
                self.wf(),
                k <= CELLS,
                forall|i: int| 0 <= i < k ==> self@[i] == Square::Empty,
            decreases CELLS - k,
        {
            if self.grid[k] != Square::Empty {
                return false;
            }
            k = k + 1;
        }
        true
    }

    /// True when every cell holds a token.
    pub fn is_full(&self) -> (r: bool)
        requires
            self.wf(),
        ensures
            r == grid_full(self@),
    {
        let mut k: usize = 0;
        while k < CELLS
            invariant
                self.wf(),
                k <= CELLS,
                forall|i: int| 0 <= i < k ==> self@[i] != Square::Empty,
            decreases CELLS - k,
        {
            if self.grid[k] == Square::Empty {
                return false;
            }
            k = k + 1;
        }
        true
    }

    /// Build a board from one text per row, given from the top row down,
    /// with `'R'` and `'Y'` for tokens and any other character for an
    /// empty cell.
    pub fn new_from_str_vec(rows: &[&str; 6]) -> (r: Board)
        requires
            forall|k: int| 0 <= k < HEIGHT ==> rows@[k]@.len() <= WIDTH,
        ensures
            r.wf(),
            forall|rr: int, cc: int|
                in_bounds(rr, cc) ==> cell(r@, rr, cc) == row_square(
                    rows@[HEIGHT - 1 - rr]@,
                    cc,
                ),
    {
        let mut board = Board::new();
        let mut i: usize = 0;
        while i < HEIGHT
            invariant
                board.wf(),
                i <= HEIGHT,
                forall|k: int| 0 <= k < HEIGHT ==> rows@[k]@.len() <= WIDTH,
                forall|rr: int, cc: int|
                    in_bounds(rr, cc) && rr < i ==> cell(board@, rr, cc) == row_square(
                        rows@[HEIGHT - 1 - rr]@,
                        cc,
                    ),
                forall|rr: int, cc: int|
                    in_bounds(rr, cc) && rr >= i ==> cell(board@, rr, cc) == Square::Empty,
            decreases HEIGHT - i,
        {
            let row: &str = rows[HEIGHT - 1 - i];
            let len: usize = row.unicode_len();
            proof {
                assert forall|cc: int| 0 <= cc < WIDTH implies cell(board@, i as int, cc)
                    == Square::Empty by {
                    assert(in_bounds(i as int, cc));
                }
            }
            let mut j: usize = 0;
            while j < len
                invariant
                    board.wf(),
                    i < HEIGHT,
                    j <= len,
                    len == row@.len(),
                    len <= WIDTH,
                    row@ == rows@[HEIGHT - 1 - i]@,
                    forall|k: int| 0 <= k < HEIGHT ==> rows@[k]@.len() <= WIDTH,
                    forall|rr: int, cc: int|
                        in_bounds(rr, cc) && rr < i ==> cell(board@, rr, cc) == row_square(
                            rows@[HEIGHT - 1 - rr]@,
                            cc,
                        ),
                    forall|cc: int|
                        0 <= cc < j ==> cell(board@, i as int, cc) == square_of_char(row@[cc]),
                    forall|cc: int|
                        j <= cc < WIDTH ==> cell(board@, i as int, cc) == Square::Empty,
                    forall|rr: int, cc: int|
                        in_bounds(rr, cc) && rr > i ==> cell(board@, rr, cc) == Square::Empty,
                decreases len - j,
            {
                let ch = row.get_char(j);
                let sq: Square = if ch == 'R' {
                    Square::Red
                } else if ch == 'Y' {
                    Square::Yellow
                } else {
                    Square::Empty
                };
                proof {
                    lemma_cell_update(board@, i as int, j as int, sq);
                }
                board.grid.set(i * WIDTH + j, sq);
                proof {
                    assert forall|cc: int| 0 <= cc < j + 1 implies cell(board@, i as int, cc)
                        == square_of_char(row@[cc]) by {
                        assert(in_bounds(i as int, cc));
                    }
                    assert forall|cc: int| j + 1 <= cc < WIDTH implies cell(board@, i as int, cc)
                        == Square::Empty by {
                        assert(in_bounds(i as int, cc));
                    }
                }
                j = j + 1;
            }
            i = i + 1;
        }
        board
    }

    /// A move is valid exactly when the chosen column still has room.
    pub fn is_valid_move(&self, column: usize) -> (r: bool)
        requires
            self.wf(),
            column < WIDTH,
        ensures
            r == column_open(self@, column as int),
    {
        self.grid[(HEIGHT - 1) * WIDTH + column] == Square::Empty
    }

    /// The row a token dropped into `column` would come to rest in,
    /// or `HEIGHT` when the column is full.
    fn find_drop_row(&self, column: usize) -> (r: usize)
        requires
            self.wf(),
            column < WIDTH,
        ensures
            r as int == drop_row(self@, column as int),
    {
        let mut row: usize = 0;
        while row < HEIGHT
            invariant
                self.wf(),
                column < WIDTH,
                row <= HEIGHT,
                drop_row_from(self@, column as int, row as int) == drop_row(self@, column as int),
            decreases HEIGHT - row,
        {
            if self.grid[row * WIDTH + column] == Square::Empty {
                return row;
            }
            row = row + 1;
        }
        HEIGHT
    }

    /// Drop a token of `color` into `column`: the lowest empty cell of the
    /// column receives it.  Fails, leaving the board unchanged, exactly when
    /// the column does not exist or has no empty cell.
    pub fn apply_move(&mut self, column: usize, color: Square) -> (r: Result<(), Error>)
        requires
            old(self).wf(),
        ensures
            final(self).wf(),
            apply_ok(old(self)@, column as int) ==> r is Ok && final(self)@ == apply_result(
                old(self)@,
                column as int,
                color,
            ),
            !apply_ok(old(self)@, column as int) ==> r == Err::<(), Error>(
                Error::InvalidMove(column),
            ) && final(self)@ == old(self)@,
    {
        if column > WIDTH - 1 {
            return Err(Error::InvalidMove(column));
        }
        let row = self.find_drop_row(column);
        if row >= HEIGHT {
            return Err(Error::InvalidMove(column));
        }
        self.grid.set(row * WIDTH + column, color);
        Ok(())
    }

    /// Drop a token of `color` into `column`, for callers that already know
    /// the move is legal.
    pub fn play_move(&mut self, column: usize, color: Square)
        requires
            old(self).wf(),
            apply_ok(old(self)@, column as int),
        ensures
            final(self).wf(),
            final(self)@ == apply_result(old(self)@, column as int, color),
    {
        let row = self.find_drop_row(column);
        self.grid.set(row * WIDTH + column, color);
    }

    /// Undo the most recent drop in `column`: the topmost occupied cell of
    /// the column must hold `color` and is reset to empty.  Fails, leaving
    /// the board unchanged, exactly when the column does not exist or no
    /// cell of the column holds `color` with only emptiness above it.
    pub fn remove_move(&mut self, column: usize, color: Square) -> (r: Result<(), Error>)
        requires
            old(self).wf(),
        ensures
            final(self).wf(),
            remove_ok(old(self)@, column as int, color) ==> r is Ok && final(self)@
                == remove_result(old(self)@, column as int, color),
            !remove_ok(old(self)@, column as int, color) ==> r == Err::<(), Error>(
                Error::InvalidMove(column),
            ) && final(self)@ == old(self)@,
    {
        if column > WIDTH - 1 {
            return Err(Error::InvalidMove(column));
        }
        let mut row: usize = HEIGHT;
        while row > 0
            invariant
                self.wf(),
                self@ == old(self)@,
                column < WIDTH,
                row <= HEIGHT,
                remove_row_down(self@, column as int, color, row as int - 1) == remove_row(
                    self@,
                    column as int,
                    color,
                ),
            decreases row,
        {
            let rr = row - 1;
            let holds_color = self.grid[rr * WIDTH + column] == color;
            let top_or_empty_above = rr == HEIGHT - 1 || self.grid[(rr + 1) * WIDTH + column]
                == Square::Empty;
            if holds_color && top_or_empty_above {
                proof {
                    assert(cell(self@, rr as int, column as int) == color);
                    assert(rr as int == HEIGHT - 1 || cell(self@, rr as int + 1, column as int)
                        == Square::Empty);
                    assert(remove_row_down(self@, column as int, color, rr as int) == rr as int);
                }
                self.grid.set(rr * WIDTH + column, Square::Empty);
                return Ok(());
            }
            proof {
                assert(remove_row_down(self@, column as int, color, rr as int) == remove_row_down(
                    self@,
                    column as int,
                    color,
                    rr as int - 1,
                ));
            }
            row = row - 1;
        }
        Err(Error::InvalidMove(column))
    }

    /// All columns that can still receive a token, in ascending order.
    pub fn list_valid_moves(&self) -> (r: Vec<usize>)
        requires
            self.wf(),
        ensures
            r@ == valid_moves(self@),
    {
        let mut open_columns: Vec<usize> = Vec::new();
        let mut c: usize = 0;
        while c < WIDTH
            invariant
                self.wf(),
                c <= WIDTH,
                valid_moves(self@) == open_columns@ + valid_moves_from(self@, c as int),
            decreases WIDTH - c,
        {
            if self.grid[(HEIGHT - 1) * WIDTH + c] == Square::Empty {
                proof {
                    assert(valid_moves_from(self@, c as int) == seq![c] + valid_moves_from(
                        self@,
                        c as int + 1,
                    ));
                    assert(open_columns@ + (seq![c] + valid_moves_from(self@, c as int + 1))
                        =~= open_columns@.push(c) + valid_moves_from(self@, c as int + 1));
                }
                open_columns.push(c);
            }
            c = c + 1;
        }
        proof {
            assert(open_columns@ + valid_moves_from(self@, WIDTH as int) =~= open_columns@);
        }
        open_columns
    }

    /// True when `(i, j)` lies on the board and holds `color`.
    fn check_in_bound_same_color(&self, i: usize, j: usize, color: Square) -> (r: bool)
        requires
            self.wf(),
        ensures
            r == step_hit(self@, i as int, j as int, color),
    {
        if i > HEIGHT - 1 || j > WIDTH - 1 {
            return false;
        }
        self.grid[i * WIDTH + j] == color
    }

    /// True when `(i, j)` lies on the board and holds `color` or nothing.
    fn check_in_bound_same_color_or_empty(&self, i: usize, j: usize, color: Square) -> (r: bool)
        requires
            self.wf(),
        ensures
            r == step_open(self@, i as int, j as int, color),
    {
        if i > HEIGHT - 1 || j > WIDTH - 1 {
            return false;
        }
        let color_to_check = self.grid[i * WIDTH + j];
        color_to_check == color || color_to_check == Square::Empty
    }

    /// Whether step `l` away from `(i, j)` in direction `(dr, dc)` is open
    /// for `color`.
    fn probe_open(&self, i: usize, j: usize, dr: isize, dc: isize, l: isize, color: Square) -> (r:
        bool)
        requires
            self.wf(),
            i < HEIGHT,
            j < WIDTH,
            0 <= dr <= 1,
            -1 <= dc <= 1,
            1 <= l <= 3,
        ensures
            r == step_open(
                self@,
                i as int + (l as int) * (dr as int),
                j as int + (l as int) * (dc as int),
                color,
            ),
    {
        proof {
            assert(0 <= l * dr <= 3) by (nonlinear_arith)
                requires
                    1 <= l <= 3,
                    0 <= dr <= 1,
            ;
            assert(-3 <= l * dc <= 3) by (nonlinear_arith)
                requires
                    1 <= l <= 3,
                    -1 <= dc <= 1,
            ;
        }
        let ri = i as isize + l * dr;
        let ci = j as isize + l * dc;
        if ri < 0 || ci < 0 {
            return false;
        }
        self.check_in_bound_same_color_or_empty(ri as usize, ci as usize, color)
    }

    /// Whether step `l` away from `(i, j)` in direction `(dr, dc)` holds
    /// `color`.
    fn probe_hit(&self, i: usize, j: usize, dr: isize, dc: isize, l: isize, color: Square) -> (r:
        bool)
        requires
            self.wf(),
            i < HEIGHT,
            j < WIDTH,
            0 <= dr <= 1,
            -1 <= dc <= 1,
            1 <= l <= 3,
        ensures
            r == step_hit(
                self@,
                i as int + (l as int) * (dr as int),
                j as int + (l as int) * (dc as int),
                color,
            ),
    {
        proof {
            assert(0 <= l * dr <= 3) by (nonlinear_arith)
                requires
                    1 <= l <= 3,
                    0 <= dr <= 1,
            ;
            assert(-3 <= l * dc <= 3) by (nonlinear_arith)
                requires
                    1 <= l <= 3,
                    -1 <= dc <= 1,
            ;
        }
        let ri = i as isize + l * dr;
        let ci = j as isize + l * dc;
        if ri < 0 || ci < 0 {
            return false;
        }
        self.check_in_bound_same_color(ri as usize, ci as usize, color)
    }

    /// The contribution of direction `(dr, dc)` to the worth of a token of
    /// `color` at `(i, j)`.
    fn dir_score_at(&self, i: usize, j: usize, dr: isize, dc: isize, color: Square) -> (r: isize)
        requires
            self.wf(),
            i < HEIGHT,
            j < WIDTH,
            0 <= dr <= 1,
            -1 <= dc <= 1,
        ensures
            r as int == dir_score(self@, i as int, j as int, dr as int, dc as int, color),
            0 <= r <= 3,
    {
        let o1 = self.probe_open(i, j, dr, dc, 1, color);
        let o2 = self.probe_open(i, j, dr, dc, 2, color);
        let o3 = self.probe_open(i, j, dr, dc, 3, color);
        if !(o1 && o2 && o3) {
            return 0;
        }
        let h1 = self.probe_hit(i, j, dr, dc, 1, color);
        let h2 = self.probe_hit(i, j, dr, dc, 2, color);
        let h3 = self.probe_hit(i, j, dr, dc, 3, color);
        let mut score: isize = 0;
        if h1 {
            score = score + 1;
        }
        if h2 {
            score = score + 1;
        }
        if h3 {
            score = score + 1;
        }
        score
    }

    /// The worth of a token of `color` at `(i, j)`: itself plus its
    /// unblocked extensions north, east, north-east and north-west.
    pub fn eval_square(&self, i: usize, j: usize, color: Square) -> (r: isize)
        requires
            self.wf(),
            i < HEIGHT,
            j < WIDTH,
        ensures
            r as int == eval_square_spec(self@, i as int, j as int, color),
            0 <= r <= 13,
    {
        if color == Square::Empty {
            return 0;
        }
        let north = self.dir_score_at(i, j, 1, 0, color);
        let east = self.dir_score_at(i, j, 0, 1, color);
        let north_east = self.dir_score_at(i, j, 1, 1, color);
        let north_west = self.dir_score_at(i, j, 1, -1, color);
        1 + north + east + north_east + north_west
    }

    /// The heuristic score of the board: the summed worth of all tokens of
    /// the first color minus the summed worth of all tokens of the second.
    pub fn eval(&self) -> (r: isize)
        requires
            self.wf(),
        ensures
            r as int == eval_spec(self@),
    {
        let mut ev: isize = 0;
        let mut i: usize = 0;
        while i < HEIGHT
            invariant
                self.wf(),
                i <= HEIGHT,
                ev as int == eval_upto(self@, i as int * (WIDTH as int)),
            decreases HEIGHT - i,
        {
            let mut j: usize = 0;
            while j < WIDTH
                invariant
                    self.wf(),
                    i < HEIGHT,
                    j <= WIDTH,
                    ev as int == eval_upto(self@, i as int * (WIDTH as int) + j as int),
                decreases WIDTH - j,
            {
                let color = self.grid[i * WIDTH + j];
                proof {
                    let k = i as int * (WIDTH as int) + j as int;
                    lemma_eval_upto_bounds(self@, k);
                    assert(k / (WIDTH as int) == i as int && k % (WIDTH as int) == j as int);
                    assert(eval_upto(self@, k + 1) == eval_upto(self@, k) + cell_score(
                        self@,
                        i as int,
                        j as int,
                    ));
                }
                match color {
                    Square::Yellow => { ev = ev + self.eval_square(i, j, color) },
                    Square::Red => { ev = ev - self.eval_square(i, j, color) },
                    Square::Empty => {},
                }
                j = j + 1;
            }
            i = i + 1;
        }
        ev
    }

    /// Whether the three steps from `(i, j)` in direction `(dr, dc)` all
    /// hold `color`.
    fn dir_line_at(&self, i: usize, j: usize, dr: isize, dc: isize, color: Square) -> (r: bool)
        requires
            self.wf(),
            i < HEIGHT,
            j < WIDTH,
            0 <= dr <= 1,
            -1 <= dc <= 1,
        ensures
            r == dir_line(self@, i as int, j as int, dr as int, dc as int, color),
    {
        let h1 = self.probe_hit(i, j, dr, dc, 1, color);
        let h2 = self.probe_hit(i, j, dr, dc, 2, color);
        let h3 = self.probe_hit(i, j, dr, dc, 3, color);
        h1 && h2 && h3
    }

    /// Whether `(i, j)` anchors a winning line of `color` in one of the
    /// four forward directions.
    pub fn check_for_square_win(&self, i: usize, j: usize, color: Square) -> (r: bool)
        requires
            self.wf(),
            i < HEIGHT,
            j < WIDTH,
        ensures
            r == wins_at(self@, i as int, j as int, color),
    {
        if color == Square::Empty {
            return false;
        }
        let north = self.dir_line_at(i, j, 1, 0, color);
        let east = self.dir_line_at(i, j, 0, 1, color);
        let north_east = self.dir_line_at(i, j, 1, 1, color);
        let north_west = self.dir_line_at(i, j, 1, -1, color);
        north || east || north_east || north_west
    }

    /// Scan the whole grid for a completed line of four; report the first
    /// winner found in row-major order from the bottom row up, a draw when
    /// the grid is full without one, and nothing otherwise.
    pub fn check_for_win(&self) -> (r: Option<GameResult>)
        requires
            self.wf(),
        ensures
            r == check_result(self@),
    {
        let mut i: usize = 0;
        while i < HEIGHT
            invariant
                self.wf(),
                i <= HEIGHT,
                win_scan(self@) == win_scan_from(self@, i as int * (WIDTH as int)),
            decreases HEIGHT - i,
        {
            let mut j: usize = 0;
            while j < WIDTH
                invariant
                    self.wf(),
                    i < HEIGHT,
                    j <= WIDTH,
                    win_scan(self@) == win_scan_from(self@, i as int * (WIDTH as int) + j as int),
                decreases WIDTH - j,
            {
                let color = self.grid[i * WIDTH + j];
                proof {
                    let k = i as int * (WIDTH as int) + j as int;
                    assert(k / (WIDTH as int) == i as int && k % (WIDTH as int) == j as int);
                }
                if color != Square::Empty {
                    if self.check_for_square_win(i, j, color) {
                        return Some(GameResult::Win(color));
                    }
                }
                j = j + 1;
            }
            i = i + 1;
        }
        if self.is_full() {
            return Some(GameResult::Draw);
        }
        None
    }

    /// The square at the given position, for read-only inspection.
    pub fn square_at(&self, row: usize, column: usize) -> (r: Square)
        requires
            self.wf(),
            row < HEIGHT,
            column < WIDTH,
        ensures
            r == cell(self@, row as int, column as int),
    {
        self.grid[row * WIDTH + column]
    }
}

impl Clone for Board {
    /// A clone is an independent board with the same cells.
    fn clone(&self) -> (r: Self)
        ensures
            r@ == self@,
    {
        let mut grid: Vec<Square> = Vec::new();
        let mut k: usize = 0;
        while k < self.grid.len()
            invariant
                grid@.len() == k,
                k <= self.grid@.len(),
                forall|i: int| 0 <= i < k ==> grid@[i] == self.grid@[i],
            decreases self.grid@.len() - k,
        {
            grid.push(self.grid[k]);
            k = k + 1;
        }
        proof {
            assert(grid@ =~= self.grid@);
        }
        Board { grid }
    }
}

impl PartialEq for Board {
    /// Boards are equal exactly when all their cells agree.
    fn eq(&self, other: &Self) -> (r: bool) {
        if self.grid.len() != other.grid.len() {
            return false;
        }
        let mut k: usize = 0;
        while k < self.grid.len()
            invariant
                self.grid@.len() == other.grid@.len(),
                k <= self.grid@.len(),
                forall|i: int| 0 <= i < k ==> self.grid@[i] == other.grid@[i],
            decreases self.grid@.len() - k,
        {
            if self.grid[k] != other.grid[k] {
                return false;
            }
            k = k + 1;
        }
        proof {
            assert(self.grid@ =~= other.grid@);
        }
        true
    }
}

impl Eq for Board {

}

impl vstd::std_specs::cmp::PartialEqSpecImpl for Board {
    open spec fn obeys_eq_spec() -> bool {
        true
    }

    open spec fn eq_spec(&self, other: &Board) -> bool {
        self@ == other@
    }
}

impl Default for Board {
    /// The default board is the empty board.
    fn default() -> (r: Self)
        ensures
            r.wf(),
            all_empty(r@),
    {
        Board::new()
    }
}

} // verus!
