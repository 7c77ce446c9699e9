//! The game state and the move that takes one state to the next.
use vstd::prelude::*;

use crate::piece::{Cell, Player};
use crate::rules::{
    board_full, column_full, drop_piece, first_empty_from, holds, is_step, landing_row,
    lemma_drop_well_formed, lemma_full_iff_top, line_through, on_board, room, run, shaped, well_formed,
    wins_at, HEIGHT, TO_WIN, WIDTH,
};

verus! {

/// Why a move was refused.
#[derive(Debug, PartialEq, Eq, Structural, Clone, Copy)]
pub enum ActionError {
    /// The column has no empty cell left.
    ColumnFull,
    /// The column index is not that of a column of the board.
    PositionOutOfBounds,
}

/// What a move led to, with the state after it.
#[derive(Debug, PartialEq, Clone, Copy)]
pub enum ActionResult {
    /// The mover completed four in a row.
    Win(Connect4Game),
    /// The move filled the board.
    Tie(Connect4Game),
    /// The game goes on.
    Move(Connect4Game),
}

impl ActionResult {
    /// The state that the move produced.
    pub open spec fn game(self) -> Connect4Game {
        match self {
            ActionResult::Win(g) => g,
            ActionResult::Tie(g) => g,
            ActionResult::Move(g) => g,
        }
    }
}

/// A position of the game: the board and the player to move next.
/// A state is never changed: a move produces a new one.
#[derive(Debug, Clone, Copy)]
pub struct Connect4Game {
    current_player: Player,
    board: [[Cell; 6]; 7],
}

/// The columns of an array board, each from the floor up.
pub open spec fn columns_of(board: [[Cell; 6]; 7]) -> Seq<Seq<Cell>> {
    board@.map_values(|col: [Cell; 6]| col@)
}

impl Connect4Game {
    /// The player to move next.
    pub closed spec fn spec_player(&self) -> Player {
        self.current_player
    }

    /// The board, as columns from left to right, each from the floor up.
    pub closed spec fn columns(&self) -> Seq<Seq<Cell>> {
        columns_of(self.board)
    }

    /// The board has the right shape and its pieces obey gravity.
    pub open spec fn wf(&self) -> bool {
        well_formed(self.columns())
    }

    /// A state made of its two parts.
    pub(crate) fn from_parts(current_player: Player, board: [[Cell; 6]; 7]) -> (g: Connect4Game)
        ensures
            g.spec_player() == current_player,
            g.columns() == columns_of(board),
    {
        Connect4Game { current_player, board }
    }

    /// The opening position: an empty board with Red to move.
    pub fn new_game() -> (g: Connect4Game)
        ensures
            g.spec_player() == Player::Red,
            shaped(g.columns()),
            forall|c: int, r: int| on_board(c, r) ==> #[trigger] g.columns()[c][r] == Cell::Empty,
            g.wf(),
    {
        let g = Connect4Game { current_player: Player::Red, board: [[Cell::Empty; 6]; 7] };
        assert(shaped(g.columns()));
        g
    }

    /// The player to move next.
    pub fn get_current_player(&self) -> (r: Player)
        ensures
            r == self.spec_player(),
    {
        self.current_player
    }

    /// The board, indexed by column and then by row from the floor up.
    pub fn get_board(&self) -> (r: [[Cell; 6]; 7])
        ensures
            columns_of(r) == self.columns(),
    {
        self.board
    }

    /// The cell of `column` at `row`, counted from the floor.
    pub(crate) fn board_cell(&self, column: usize, row: usize) -> (r: Cell)
        requires
            column < WIDTH,
            row < HEIGHT,
        ensures
            r == self.columns()[column as int][row as int],
    {
        self.board[column][row]
    }

    /// The row on which a piece dropped into `column` would land, if any.
    fn get_top_row_for_column(&self, column: usize) -> (r: Option<usize>)
        requires
            column < WIDTH,
        ensures
            match r {
                Some(row) => row as int == landing_row(self.columns()[column as int]) && row
                    < HEIGHT,
                None => landing_row(self.columns()[column as int]) == HEIGHT,
            },
    {
        let ghost col = self.columns()[column as int];
        let mut row: usize = 0;
        while row < HEIGHT
            invariant
                column < WIDTH,
                col == self.columns()[column as int],
                col.len() == HEIGHT,
                0 <= row <= HEIGHT,
                first_empty_from(col, row as int) == landing_row(col),
            decreases HEIGHT - row,
        {
            if self.board[column][row] == Cell::Empty {
                return Some(row);
            }
            row = row + 1;
        }
        None
    }

    /// Counts the pieces of `player` met when walking away from
    /// `(column, row)` by steps of `(dc, dr)`.
    fn count_run(&self, player: Player, column: usize, row: usize, dc: i8, dr: i8) -> (n: usize)
        requires
            column < WIDTH,
            row < HEIGHT,
            is_step(dc as int, dr as int),
        ensures
            n == run(
                self.columns(),
                player,
                column + dc,
                row + dr,
                dc as int,
                dr as int,
            ),
            n <= WIDTH + HEIGHT + 2,
    {
        let ghost b = self.columns();
        let ghost total = run(b, player, column + dc, row + dr, dc as int, dr as int);
        let mut c: isize = column as isize + dc as isize;
        let mut r: isize = row as isize + dr as isize;
        let mut n: usize = 0;
        while 0 <= c && c < 7 && 0 <= r && r < 6
            && self.board[c as usize][r as usize] == Cell::Piece(player)
            invariant
                b == self.columns(),
                is_step(dc as int, dr as int),
                -1 <= c <= 7,
                -1 <= r <= 6,
                n + run(b, player, c as int, r as int, dc as int, dr as int) == total,
                n + room(c as int, dc as int, WIDTH as int) + room(r as int, dr as int, HEIGHT as int)
                    <= WIDTH + HEIGHT + 2,
            decreases room(c as int, dc as int, WIDTH as int) + room(
                r as int,
                dr as int,
                HEIGHT as int,
            ),
        {
            assert(holds(b, player, c as int, r as int));
            n = n + 1;
            c = c + dc as isize;
            r = r + dr as isize;
        }
        n
    }

    /// The length of the line of `player`'s pieces through `(column, row)`
    /// along the axis `(dc, dr)`, counting the cell itself.
    fn line_length(&self, player: Player, column: usize, row: usize, dc: i8, dr: i8) -> (n: usize)
        requires
            column < WIDTH,
            row < HEIGHT,
            is_step(dc as int, dr as int),
        ensures
            n == line_through(self.columns(), player, column as int, row as int, dc as int, dr as int),
    {
        1 + self.count_run(player, column, row, dc, dr) + self.count_run(player, column, row, -dc, -dr)
    }

    /// Whether a piece of `player` at `(column, row)` completes four in a row.
    fn did_win_at_position(&self, player: Player, column: usize, row: usize) -> (r: bool)
        requires
            column < WIDTH,
            row < HEIGHT,
        ensures
            r == wins_at(self.columns(), player, column as int, row as int),
    {
        self.line_length(player, column, row, 1, 0) >= TO_WIN
            || self.line_length(player, column, row, 0, 1) >= TO_WIN
            || self.line_length(player, column, row, 1, 1) >= TO_WIN
            || self.line_length(player, column, row, -1, 1) >= TO_WIN
    }

    /// Whether the top cell of every column holds a piece.
    fn is_board_full(&self) -> (r: bool)
        ensures
            r == board_full(self.columns()),
    {
        let mut c: usize = 0;
        while c < WIDTH
            invariant
                0 <= c <= WIDTH,
                forall|k: int| 0 <= k < c ==> #[trigger] column_full(self.columns(), k),
            decreases WIDTH - c,
        {
            if self.board[c][HEIGHT - 1] == Cell::Empty {
                assert(!column_full(self.columns(), c as int));
                return false;
            }
            c = c + 1;
        }
        true
    }

    /// Drops a piece of the player to move into `column`. The piece lands on
    /// the lowest empty cell of that column. A move that fills the board is a
    /// tie, even where it also completes four in a row; otherwise a move that
    /// completes four in a row for the mover is a win. The state itself is
    /// left as it was.
    pub fn play_piece(&self, column: usize) -> (r: Result<ActionResult, ActionError>)
        requires
            self.wf(),
        ensures
            column >= WIDTH ==> r == Err::<ActionResult, ActionError>(
                ActionError::PositionOutOfBounds,
            ),
            column < WIDTH && column_full(self.columns(), column as int) ==> r == Err::<
                ActionResult,
                ActionError,
            >(ActionError::ColumnFull),
            column < WIDTH && !column_full(self.columns(), column as int) ==> r is Ok,
            r matches Ok(res) ==> {
                let after = drop_piece(self.columns(), column as int, self.spec_player());
                let row = landing_row(self.columns()[column as int]);
                &&& column < WIDTH
                &&& row < HEIGHT
                &&& res.game().columns() == after
                &&& res.game().spec_player() == self.spec_player().spec_other()
                &&& res.game().wf()
                &&& (res is Tie <==> board_full(after))
                &&& (res is Win <==> !board_full(after) && wins_at(
                    after,
                    self.spec_player(),
                    column as int,
                    row,
                ))
            },
    {
        if column >= WIDTH {
            return Err(ActionError::PositionOutOfBounds);
        }
        proof {
            lemma_full_iff_top(self.columns()[column as int]);
        }
        match self.get_top_row_for_column(column) {
            None => Err(ActionError::ColumnFull),
            Some(row) => {
                proof {
                    lemma_drop_well_formed(self.columns(), column as int, self.current_player);
                }
                let mut board = self.board;
                let mut col = board[column];
                col[row] = Cell::Piece(self.current_player);
                board[column] = col;
                let new_game = Connect4Game { current_player: self.current_player.other(), board };
                assert(new_game.columns() =~~= drop_piece(
                    self.columns(),
                    column as int,
                    self.current_player,
                ));
                if new_game.is_board_full() {
                    Ok(ActionResult::Tie(new_game))
                } else if new_game.did_win_at_position(self.current_player, column, row) {
                    Ok(ActionResult::Win(new_game))
                } else {
                    Ok(ActionResult::Move(new_game))
                }
            },
        }
    }
}

/// Two states are equal when they have the same player to move and the same
/// pieces on the same cells.
impl PartialEq for Connect4Game {
    fn eq(&self, other: &Connect4Game) -> (r: bool) {
        if self.current_player != other.current_player {
            return false;
        }
        let mut c: usize = 0;
        while c < WIDTH
            invariant
                0 <= c <= WIDTH,
                forall|k: int| 0 <= k < c ==> #[trigger] self.columns()[k] == other.columns()[k],
            decreases WIDTH - c,
        {
            let mut row: usize = 0;
            while row < HEIGHT
                invariant
                    0 <= c < WIDTH,
                    0 <= row <= HEIGHT,
                    forall|i: int| 0 <= i < row ==> #[trigger] self.columns()[c as int][i]
                        == other.columns()[c as int][i],
                decreases HEIGHT - row,
            {
                if self.board[c][row] != other.board[c][row] {
                    assert(self.columns()[c as int][row as int] != other.columns()[c as int][row as int]);
                    return false;
                }
                row = row + 1;
            }
            assert(self.columns()[c as int] =~= other.columns()[c as int]);
            c = c + 1;
        }
        assert(self.columns() =~= other.columns());
        true
    }
}

impl vstd::std_specs::cmp::PartialEqSpecImpl for Connect4Game {
    open spec fn obeys_eq_spec() -> bool {
        true
    }

    open spec fn eq_spec(&self, other: &Connect4Game) -> bool {
        self.spec_player() == other.spec_player() && self.columns() == other.columns()
    }
}

} // verus!
