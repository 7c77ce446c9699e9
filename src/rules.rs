//! The rules of the game stated over a mathematical board: a sequence of
//! columns, each a sequence of cells from the floor up.
use vstd::prelude::*;

use crate::piece::{Cell, Player};

verus! {

/// Number of columns.
pub const WIDTH: usize = 7;

/// Number of rows, the capacity of one column.
pub const HEIGHT: usize = 6;

/// Pieces in a row needed to win.
pub const TO_WIN: usize = 4;

/// A board of the right shape: `WIDTH` columns of `HEIGHT` cells.
pub open spec fn shaped(b: Seq<Seq<Cell>>) -> bool {
    &&& b.len() == WIDTH
    &&& forall|c: int| 0 <= c < WIDTH ==> (#[trigger] b[c]).len() == HEIGHT
}

/// Pieces obey gravity: below a piece there is never an empty cell.
pub open spec fn settled_column(col: Seq<Cell>) -> bool {
    forall|i: int, j: int|
        0 <= i <= j < col.len() && #[trigger] col[j] != Cell::Empty ==> #[trigger] col[i]
            != Cell::Empty
}

/// A board of the right shape whose columns all obey gravity.
pub open spec fn well_formed(b: Seq<Seq<Cell>>) -> bool {
    &&& shaped(b)
    &&& forall|c: int| 0 <= c < WIDTH ==> settled_column(#[trigger] b[c])
}

/// The first empty row of `col` at or above row `i`, or the column's length if
/// there is none.
pub open spec fn first_empty_from(col: Seq<Cell>, i: int) -> int
    decreases col.len() - i,
{
    if i < 0 || i >= col.len() {
        col.len() as int
    } else if col[i] == Cell::Empty {
        i
    } else {
        first_empty_from(col, i + 1)
    }
}

/// The row on which a piece dropped into `col` comes to rest (the column's
/// length when it is full).
pub open spec fn landing_row(col: Seq<Cell>) -> int {
    first_empty_from(col, 0)
}

/// The top cell of column `c` holds a piece.
pub open spec fn column_full(b: Seq<Seq<Cell>>, c: int) -> bool {
    b[c][HEIGHT - 1] != Cell::Empty
}

/// Every column is full.
pub open spec fn board_full(b: Seq<Seq<Cell>>) -> bool {
    forall|c: int| 0 <= c < WIDTH ==> #[trigger] column_full(b, c)
}

/// `(c, r)` lies on the board.
pub open spec fn on_board(c: int, r: int) -> bool {
    0 <= c < WIDTH && 0 <= r < HEIGHT
}

/// Cell `(c, r)` is on the board and holds a piece of `p`.
pub open spec fn holds(b: Seq<Seq<Cell>>, p: Player, c: int, r: int) -> bool {
    on_board(c, r) && b[c][r] == Cell::Piece(p)
}

/// How many steps along one coordinate remain from `x` before leaving
/// `0..size` when moving by `d`; a coordinate that does not move counts none.
pub open spec fn room(x: int, d: int, size: int) -> int {
    if d > 0 {
        size - x
    } else if d < 0 {
        x + 1
    } else {
        0
    }
}

/// A direction of one of the four axes or its reverse.
pub open spec fn is_step(dc: int, dr: int) -> bool {
    -1 <= dc <= 1 && -1 <= dr <= 1 && (dc != 0 || dr != 0)
}

/// The number of consecutive pieces of `p` met when walking from `(c, r)`
/// (included) by steps of `(dc, dr)`, stopping at the first cell that is
/// empty, holds the other player's piece, or lies off the board.
pub open spec fn run(b: Seq<Seq<Cell>>, p: Player, c: int, r: int, dc: int, dr: int) -> nat
    decreases room(c, dc, WIDTH as int) + room(r, dr, HEIGHT as int),
{
    if is_step(dc, dr) && holds(b, p, c, r) {
        1 + run(b, p, c + dc, r + dr, dc, dr)
    } else {
        0
    }
}

/// The length of the line of `p`'s pieces through `(c, r)` along the axis
/// `(dc, dr)`: the piece at `(c, r)` and the runs on both sides of it.
pub open spec fn line_through(b: Seq<Seq<Cell>>, p: Player, c: int, r: int, dc: int, dr: int) -> int {
    (1 + run(b, p, c + dc, r + dr, dc, dr) + run(b, p, c - dc, r - dr, -dc, -dr)) as int
}

/// A piece of `p` at `(c, r)` completes four in a row on one of the four axes:
/// horizontal, vertical, and the two diagonals.
pub open spec fn wins_at(b: Seq<Seq<Cell>>, p: Player, c: int, r: int) -> bool {
    ||| line_through(b, p, c, r, 1, 0) >= TO_WIN
    ||| line_through(b, p, c, r, 0, 1) >= TO_WIN
    ||| line_through(b, p, c, r, 1, 1) >= TO_WIN
    ||| line_through(b, p, c, r, -1, 1) >= TO_WIN
}

/// The board after a piece of `p` comes to rest in column `c`.
pub open spec fn drop_piece(b: Seq<Seq<Cell>>, c: int, p: Player) -> Seq<Seq<Cell>> {
    b.update(c, b[c].update(landing_row(b[c]), Cell::Piece(p)))
}

/// Everything below the landing row holds a piece, and the landing row itself,
/// when it is on the board, is empty.
pub proof fn lemma_landing_row(col: Seq<Cell>)
    ensures
        0 <= landing_row(col) <= col.len(),
        forall|i: int| 0 <= i < landing_row(col) ==> col[i] != Cell::Empty,
        landing_row(col) < col.len() ==> col[landing_row(col)] == Cell::Empty,
{
    lemma_first_empty_from(col, 0);
}

proof fn lemma_first_empty_from(col: Seq<Cell>, k: int)
    requires
        0 <= k <= col.len(),
    ensures
        k <= first_empty_from(col, k) <= col.len(),
        forall|i: int| k <= i < first_empty_from(col, k) ==> col[i] != Cell::Empty,
        first_empty_from(col, k) < col.len() ==> col[first_empty_from(col, k)] == Cell::Empty,
    decreases col.len() - k,
{
    if k < col.len() && col[k] != Cell::Empty {
        lemma_first_empty_from(col, k + 1);
    }
}

/// In a column that obeys gravity, no cell is left to land on exactly when the
/// top cell holds a piece.
pub proof fn lemma_full_iff_top(col: Seq<Cell>)
    requires
        col.len() == HEIGHT,
        settled_column(col),
    ensures
        (landing_row(col) == HEIGHT) <==> (col[HEIGHT - 1] != Cell::Empty),
{
    lemma_landing_row(col);
    if col[HEIGHT - 1] != Cell::Empty {
        assert forall|i: int| 0 <= i < HEIGHT implies col[i] != Cell::Empty by {
            assert(col[HEIGHT - 1] != Cell::Empty);
        }
    }
}

/// Dropping a piece into a column that is not full keeps the board well formed,
/// and the piece lands on the board.
pub proof fn lemma_drop_well_formed(b: Seq<Seq<Cell>>, c: int, p: Player)
    requires
        well_formed(b),
        0 <= c < WIDTH,
        !column_full(b, c),
    ensures
        landing_row(b[c]) < HEIGHT,
        well_formed(drop_piece(b, c, p)),
{
    let col = b[c];
    let row = landing_row(col);
    lemma_landing_row(col);
    lemma_full_iff_top(col);
    let nb = drop_piece(b, c, p);
    let ncol = col.update(row, Cell::Piece(p));
    assert(nb[c] == ncol);
    assert forall|i: int, j: int|
        0 <= i <= j < ncol.len() && #[trigger] ncol[j] != Cell::Empty implies #[trigger] ncol[i]
            != Cell::Empty by {
        if j > row {
            assert(col[j] != Cell::Empty);
            assert(col[row] != Cell::Empty);
        }
    }
    assert forall|k: int| 0 <= k < WIDTH implies settled_column(#[trigger] nb[k]) by {
        if k != c {
            assert(nb[k] == b[k]);
        }
    }
}

} // verus!
