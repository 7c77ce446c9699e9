//! The text forms of a state: the serialized form that `from_string` reads and
//! `to_serialized` writes, and the grid of glyphs that `board_to_string` draws.
//!
//! The serialized form has the player to move on its first line (`r` or `b`),
//! then one line per column from the left, each giving the column's pieces
//! from the floor up (`r` for Red, `b` for Blue). Columns whose line is missing
//! are empty.
use vstd::prelude::*;

use crate::game::{columns_of, Connect4Game};
use crate::piece::{Cell, Player};
use crate::rules::{
    first_empty_from, landing_row, lemma_landing_row, settled_column, well_formed, HEIGHT, WIDTH,
};

verus! {

/// Why a text could not be read as a state.
#[derive(Debug, PartialEq, Eq, Structural, Clone, Copy)]
pub enum Connect4ParseError {
    /// The text is empty.
    MissingPlayer,
    /// The first line is neither `r` nor `b`.
    InvalidPlayerCharacter,
    /// A column line holds a character other than `r` and `b`.
    InvalidPieceCharacter,
    /// A column line holds more pieces than a column can.
    RowTooLong,
    /// There are more column lines than columns.
    TooManyRows,
}

/// The lines of `s`, cut at each newline: `k` newlines give `k + 1` lines.
pub open spec fn split_lines(s: Seq<char>) -> Seq<Seq<char>>
    decreases s.len(),
{
    if s.len() == 0 {
        seq![Seq::empty()]
    } else {
        let before = split_lines(s.drop_last());
        if s.last() == '\n' {
            before.push(Seq::empty())
        } else {
            before.update(before.len() - 1, before.last().push(s.last()))
        }
    }
}

/// The piece that a character of a column line stands for.
pub open spec fn piece_of(ch: char) -> Option<Player> {
    if ch == 'r' {
        Some(Player::Red)
    } else if ch == 'b' {
        Some(Player::Blue)
    } else {
        None
    }
}

/// The character that stands for a player.
pub open spec fn char_of(p: Player) -> char {
    match p {
        Player::Red => 'r',
        Player::Blue => 'b',
    }
}

/// Every character of the line stands for a piece.
pub open spec fn pieces_line(line: Seq<char>) -> bool {
    forall|i: int| 0 <= i < line.len() ==> (#[trigger] piece_of(line[i])) is Some
}

/// The column that a valid column line describes.
pub open spec fn column_of_line(line: Seq<char>) -> Seq<Cell> {
    Seq::new(
        HEIGHT as nat,
        |i: int|
            if i < line.len() {
                Cell::Piece(piece_of(line[i])->0)
            } else {
                Cell::Empty
            },
    )
}

/// The first error among the column lines from line `k` on, if any: a line is
/// checked for its length before its characters, and lines in order.
pub open spec fn first_line_error(lines: Seq<Seq<char>>, k: int) -> Option<Connect4ParseError>
    decreases lines.len() - k,
{
    if k < 0 || k >= lines.len() {
        None
    } else if lines[k].len() > HEIGHT {
        Some(Connect4ParseError::RowTooLong)
    } else if !pieces_line(lines[k]) {
        Some(Connect4ParseError::InvalidPieceCharacter)
    } else {
        first_line_error(lines, k + 1)
    }
}

/// The board that valid lines describe: column `c` from line `c + 1`.
pub open spec fn board_of_lines(lines: Seq<Seq<char>>) -> Seq<Seq<Cell>> {
    Seq::new(
        WIDTH as nat,
        |c: int|
            if c + 1 < lines.len() {
                column_of_line(lines[c + 1])
            } else {
                column_of_line(Seq::empty())
            },
    )
}

/// What reading `s` gives: the player to move and the board, or the error.
pub open spec fn parse(s: Seq<char>) -> Result<(Player, Seq<Seq<Cell>>), Connect4ParseError> {
    let lines = split_lines(s);
    if s.len() == 0 {
        Err(Connect4ParseError::MissingPlayer)
    } else if lines.len() > WIDTH + 1 {
        Err(Connect4ParseError::TooManyRows)
    } else if lines[0] != seq![char_of(Player::Red)] && lines[0] != seq![char_of(Player::Blue)] {
        Err(Connect4ParseError::InvalidPlayerCharacter)
    } else if first_line_error(lines, 1) is Some {
        Err(first_line_error(lines, 1)->0)
    } else {
        Ok((piece_of(lines[0][0])->0, board_of_lines(lines)))
    }
}

/// The state that `s` describes, or the error that reading it meets.
pub open spec fn parsed_as(r: Result<Connect4Game, Connect4ParseError>, s: Seq<char>) -> bool {
    match (r, parse(s)) {
        (Ok(g), Ok((p, b))) => g.spec_player() == p && g.columns() == b,
        (Err(e), Err(e2)) => e == e2,
        _ => false,
    }
}

/// Cuts `s` into its lines.
fn lines_of(s: &str) -> (lines: Vec<Vec<char>>)
    ensures
        lines@.map_values(|l: Vec<char>| l@) == split_lines(s@),
{
    let n = s.unicode_len();
    let mut done: Vec<Vec<char>> = Vec::new();
    let mut current: Vec<char> = Vec::new();
    let mut i: usize = 0;
    while i < n
        invariant
            n == s@.len(),
            0 <= i <= n,
            done@.map_values(|l: Vec<char>| l@).push(current@) == split_lines(s@.take(i as int)),
        decreases n - i,
    {
        let ch = s.get_char(i);
        let ghost before = done@.map_values(|l: Vec<char>| l@).push(current@);
        assert(s@.take(i + 1).drop_last() =~= s@.take(i as int));
        if ch == '\n' {
            done.push(current);
            current = Vec::new();
            assert(done@.map_values(|l: Vec<char>| l@).push(current@) =~= before.push(
                Seq::empty(),
            ));
        } else {
            current.push(ch);
            assert(done@.map_values(|l: Vec<char>| l@).push(current@) =~= before.update(
                before.len() - 1,
                before.last().push(ch),
            ));
        }
        i = i + 1;
    }
    assert(s@.take(n as int) =~= s@);
    let ghost before = done@.map_values(|l: Vec<char>| l@).push(current@);
    done.push(current);
    assert(done@.map_values(|l: Vec<char>| l@) =~= before);
    done
}

/// Text always has at least one line.
proof fn lemma_split_lines_nonempty(s: Seq<char>)
    ensures
        split_lines(s).len() >= 1,
    decreases s.len(),
{
    if s.len() > 0 {
        lemma_split_lines_nonempty(s.drop_last());
    }
}

/// The cell that a character of a column line stands for.
fn piece_from_char(ch: char) -> (r: Option<Cell>)
    ensures
        r == (match piece_of(ch) {
            Some(p) => Some(Cell::Piece(p)),
            None => None,
        }),
{
    if ch == 'r' {
        Some(Cell::Piece(Player::Red))
    } else if ch == 'b' {
        Some(Cell::Piece(Player::Blue))
    } else {
        None
    }
}

/// Reads one column line into a column.
fn column_from_line(line: &Vec<char>) -> (r: Result<[Cell; 6], Connect4ParseError>)
    ensures
        line@.len() > HEIGHT ==> r == Err::<[Cell; 6], Connect4ParseError>(
            Connect4ParseError::RowTooLong,
        ),
        line@.len() <= HEIGHT && !pieces_line(line@) ==> r == Err::<[Cell; 6], Connect4ParseError>(
            Connect4ParseError::InvalidPieceCharacter,
        ),
        line@.len() <= HEIGHT && pieces_line(line@) ==> (r matches Ok(col) && col@
            == column_of_line(line@)),
{
    if line.len() > HEIGHT {
        return Err(Connect4ParseError::RowTooLong);
    }
    let mut col = [Cell::Empty; 6];
    let mut i: usize = 0;
    while i < line.len()
        invariant
            line@.len() <= HEIGHT,
            0 <= i <= line@.len(),
            forall|j: int| 0 <= j < i ==> (#[trigger] piece_of(line@[j])) is Some,
            forall|j: int|
                0 <= j < HEIGHT ==> #[trigger] col@[j] == if j < i {
                    Cell::Piece(piece_of(line@[j])->0)
                } else {
                    Cell::Empty
                },
        decreases line@.len() - i,
    {
        match piece_from_char(line[i]) {
            Some(cell) => {
                col[i] = cell;
            },
            None => {
                assert(piece_of(line@[i as int]) is None);
                return Err(Connect4ParseError::InvalidPieceCharacter);
            },
        }
        i = i + 1;
    }
    assert(col@ =~= column_of_line(line@));
    Ok(col)
}

impl Connect4Game {
    /// Reads a state from its serialized form. Reading fails on an empty text
    /// (`MissingPlayer`), on more than one line per column after the first
    /// line (`TooManyRows`), on a first line other than `r` or `b`
    /// (`InvalidPlayerCharacter`), and on the first column line, in order, that
    /// is longer than a column (`RowTooLong`) or holds another character
    /// (`InvalidPieceCharacter`).
    pub fn from_string(string: &str) -> (r: Result<Connect4Game, Connect4ParseError>)
        ensures
            parsed_as(r, string@),
            r matches Ok(g) ==> g.wf(),
    {
        if string.unicode_len() == 0 {
            return Err(Connect4ParseError::MissingPlayer);
        }
        let lines = lines_of(string);
        let ghost ls = split_lines(string@);
        proof {
            lemma_split_lines_nonempty(string@);
            assert(lines@.len() == ls.len());
        }
        if lines.len() > WIDTH + 1 {
            return Err(Connect4ParseError::TooManyRows);
        }
        let first = &lines[0];
        assert(first@ == ls[0]);
        let current_player = if first.len() == 1 && first[0] == 'r' {
            assert(ls[0] =~= seq!['r']);
            Player::Red
        } else if first.len() == 1 && first[0] == 'b' {
            assert(ls[0] =~= seq!['b']);
            Player::Blue
        } else {
            assert(ls[0] != seq!['r'] && ls[0] != seq!['b']) by {
                if ls[0] == seq!['r'] || ls[0] == seq!['b'] {
                    assert(ls[0].len() == 1);
                }
            }
            return Err(Connect4ParseError::InvalidPlayerCharacter);
        };
        let mut board = [[Cell::Empty; 6]; 7];
        let mut k: usize = 1;
        while k < lines.len()
            invariant
                lines@.map_values(|l: Vec<char>| l@) == ls,
                ls == split_lines(string@),
                string@.len() > 0,
                ls[0] == seq!['r'] || ls[0] == seq!['b'],
                1 <= k <= lines@.len() <= WIDTH + 1,
                first_line_error(ls, 1) == first_line_error(ls, k as int),
                forall|c: int|
                    0 <= c < WIDTH ==> #[trigger] columns_of(board)[c] == if c + 1 < k {
                        column_of_line(ls[c + 1])
                    } else {
                        column_of_line(Seq::empty())
                    },
            decreases lines@.len() - k,
        {
            assert(lines@[k as int]@ == ls[k as int]);
            let ghost prev = board;
            match column_from_line(&lines[k]) {
                Ok(col) => {
                    board[k - 1] = col;
                    assert forall|c: int| 0 <= c < WIDTH implies #[trigger] columns_of(board)[c]
                        == if c + 1 < k + 1 {
                        column_of_line(ls[c + 1])
                    } else {
                        column_of_line(Seq::empty())
                    } by {
                        if c != k - 1 {
                            assert(columns_of(board)[c] == columns_of(prev)[c]);
                        }
                    }
                },
                Err(e) => {
                    assert(first_line_error(ls, k as int) == Some(e));
                    return Err(e);
                },
            }
            k = k + 1;
        }
        let g = Connect4Game::from_parts(current_player, board);
        assert(g.columns() =~= board_of_lines(ls));
        assert(well_formed(g.columns()));
        Ok(g)
    }
}

/// The glyph that shows a player.
pub open spec fn player_glyph(p: Player) -> char {
    match p {
        Player::Red => '\u{1F534}',
        Player::Blue => '\u{1F535}',
    }
}

/// The glyph that shows a cell.
pub open spec fn cell_glyph(c: Cell) -> char {
    match c {
        Cell::Empty => '\u{26AB}',
        Cell::Piece(p) => player_glyph(p),
    }
}

/// Row `y` of the board drawn from left to right.
pub open spec fn row_text(b: Seq<Seq<Cell>>, y: int) -> Seq<char> {
    Seq::new(WIDTH as nat, |x: int| cell_glyph(b[x][y]))
}

/// Rows `y` down to the floor, one line each, top first.
pub open spec fn rows_text(b: Seq<Seq<Cell>>, y: int) -> Seq<char>
    decreases y,
{
    if y <= 0 {
        row_text(b, 0)
    } else {
        row_text(b, y) + seq!['\n'] + rows_text(b, y - 1)
    }
}

/// The board drawn as a grid, top row first, with no newline after the last row.
pub open spec fn grid_text(b: Seq<Seq<Cell>>) -> Seq<char> {
    rows_text(b, HEIGHT - 1)
}

/// What remains to be drawn of the grid when the lowest `k` rows are left.
spec fn grid_rest(b: Seq<Seq<Cell>>, k: int) -> Seq<char> {
    if k >= HEIGHT {
        grid_text(b)
    } else if k <= 0 {
        Seq::empty()
    } else {
        seq!['\n'] + rows_text(b, k - 1)
    }
}

/// The label put before the player to move when a state is shown.
pub open spec fn player_label() -> Seq<char> {
    seq!['\n'] + "Current player:"@
}

impl Player {
    /// The glyph that shows this player.
    pub fn glyph(&self) -> (r: &'static str)
        ensures
            r@ == seq![player_glyph(*self)],
    {
        match self {
            Player::Red => {
                proof {
                    reveal_strlit("\u{1F534}");
                }
                "\u{1F534}"
            },
            Player::Blue => {
                proof {
                    reveal_strlit("\u{1F535}");
                }
                "\u{1F535}"
            },
        }
    }
}

impl Cell {
    /// The glyph that shows this cell.
    pub fn glyph(&self) -> (r: &'static str)
        ensures
            r@ == seq![cell_glyph(*self)],
    {
        match self {
            Cell::Empty => {
                proof {
                    reveal_strlit("\u{26AB}");
                }
                "\u{26AB}"
            },
            Cell::Piece(p) => p.glyph(),
        }
    }
}

impl Connect4Game {
    /// Draws the board as a grid of glyphs: rows from the top down, each from
    /// the left, one line per row and no newline after the last.
    pub fn board_to_string(&self) -> (r: String)
        ensures
            r@ == grid_text(self.columns()),
    {
        let ghost b = self.columns();
        let mut out = String::new();
        let mut k: usize = HEIGHT;
        while k > 0
            invariant
                b == self.columns(),
                0 <= k <= HEIGHT,
                out@ + grid_rest(b, k as int) == grid_text(b),
            decreases k,
        {
            let ghost before = out@;
            if k < HEIGHT {
                proof {
                    reveal_strlit("\n");
                }
                out.append("\n");
            }
            let ghost start = out@;
            let y = k - 1;
            let mut x: usize = 0;
            while x < WIDTH
                invariant
                    b == self.columns(),
                    y < HEIGHT,
                    0 <= x <= WIDTH,
                    out@ == start + row_text(b, y as int).take(x as int),
                decreases WIDTH - x,
            {
                out.append(self.board_cell(x, y).glyph());
                assert(row_text(b, y as int).take(x + 1) =~= row_text(b, y as int).take(
                    x as int,
                ).push(cell_glyph(b[x as int][y as int])));
                x = x + 1;
            }
            assert(row_text(b, y as int).take(WIDTH as int) =~= row_text(b, y as int));
            assert(out@ + grid_rest(b, y as int) =~= before + grid_rest(b, k as int));
            k = k - 1;
        }
        assert(out@ =~= grid_text(b));
        out
    }

    /// Shows the state: the grid, then a line naming the player to move.
    pub fn render(&self) -> (r: String)
        ensures
            r@ == grid_text(self.columns()) + player_label() + seq![player_glyph(self.spec_player())],
    {
        let mut out = self.board_to_string();
        proof {
            reveal_strlit("\nCurrent player:");
            reveal_strlit("Current player:");
        }
        out.append("\nCurrent player:");
        out.append(self.get_current_player().glyph());
        assert(player_label() =~= "\nCurrent player:"@);
        out
    }
}

/// The serialized line of a column: its pieces from the floor up.
pub open spec fn line_of_column(col: Seq<Cell>) -> Seq<char> {
    Seq::new(landing_row(col) as nat, |i: int| char_of(col[i]->Piece_0))
}

/// The serialized lines of the first `n` columns, each after a newline.
pub open spec fn column_lines(b: Seq<Seq<Cell>>, n: int) -> Seq<char>
    decreases n,
{
    if n <= 0 {
        Seq::empty()
    } else {
        column_lines(b, n - 1) + seq!['\n'] + line_of_column(b[n - 1])
    }
}

/// The serialized form of the state with player `p` to move on board `b`.
pub open spec fn serialized(p: Player, b: Seq<Seq<Cell>>) -> Seq<char> {
    seq![char_of(p)] + column_lines(b, WIDTH as int)
}

impl Player {
    /// The character that stands for this player in the serialized form.
    fn letter(&self) -> (r: &'static str)
        ensures
            r@ == seq![char_of(*self)],
    {
        match self {
            Player::Red => {
                proof {
                    reveal_strlit("r");
                }
                "r"
            },
            Player::Blue => {
                proof {
                    reveal_strlit("b");
                }
                "b"
            },
        }
    }
}

impl Connect4Game {
    /// Writes the state in the form that `from_string` reads: the player to
    /// move, then one line per column holding its pieces from the floor up.
    pub fn to_serialized(&self) -> (r: String)
        requires
            self.wf(),
        ensures
            r@ == serialized(self.spec_player(), self.columns()),
    {
        let ghost b = self.columns();
        let mut out = String::new();
        out.append(self.get_current_player().letter());
        let mut c: usize = 0;
        while c < WIDTH
            invariant
                b == self.columns(),
                well_formed(b),
                0 <= c <= WIDTH,
                out@ == seq![char_of(self.spec_player())] + column_lines(b, c as int),
            decreases WIDTH - c,
        {
            proof {
                reveal_strlit("\n");
            }
            out.append("\n");
            let ghost start = out@;
            let ghost col = b[c as int];
            let mut i: usize = 0;
            while i < HEIGHT && self.board_cell(c, i) != Cell::Empty
                invariant
                    b == self.columns(),
                    col == b[c as int],
                    col.len() == HEIGHT,
                    c < WIDTH,
                    0 <= i <= HEIGHT,
                    first_empty_from(col, i as int) == landing_row(col),
                    forall|j: int| 0 <= j < i ==> #[trigger] col[j] != Cell::Empty,
                    out@ == start + Seq::new(i as nat, |j: int| char_of(col[j]->Piece_0)),
                decreases HEIGHT - i,
            {
                if let Cell::Piece(p) = self.board_cell(c, i) {
                    out.append(p.letter());
                    assert(Seq::new((i + 1) as nat, |j: int| char_of(col[j]->Piece_0)) =~= Seq::new(
                        i as nat,
                        |j: int| char_of(col[j]->Piece_0),
                    ).push(char_of(p)));
                }
                i = i + 1;
            }
            assert(i == landing_row(col));
            assert(out@ =~= seq![char_of(self.spec_player())] + column_lines(b, c + 1));
            c = c + 1;
        }
        out
    }
}

/// A line without newlines.
pub open spec fn one_line(l: Seq<char>) -> bool {
    forall|i: int| 0 <= i < l.len() ==> l[i] != '\n'
}

/// Text without newlines added to `x` extends its last line.
proof fn lemma_split_extend(x: Seq<char>, l: Seq<char>)
    requires
        one_line(l),
    ensures
        split_lines(x + l) == split_lines(x).update(
            split_lines(x).len() - 1,
            split_lines(x).last() + l,
        ),
    decreases l.len(),
{
    lemma_split_lines_nonempty(x);
    if l.len() == 0 {
        assert(x + l =~= x);
        assert(split_lines(x).last() + l =~= split_lines(x).last());
        assert(split_lines(x).update(split_lines(x).len() - 1, split_lines(x).last())
            =~= split_lines(x));
    } else {
        let front = l.drop_last();
        assert(one_line(front)) by {
            assert forall|i: int| 0 <= i < front.len() implies front[i] != '\n' by {
                assert(front[i] == l[i]);
            }
        }
        lemma_split_extend(x, front);
        let whole = split_lines(x);
        let before = split_lines(x + front);
        assert(before.len() == whole.len());
        assert(before.last() == whole.last() + front);
        assert((x + l).drop_last() =~= x + front);
        assert((x + l).last() == l.last());
        assert(l.last() != '\n');
        assert(split_lines(x + l) == before.update(before.len() - 1, before.last().push(l.last())));
        assert((whole.last() + front).push(l.last()) =~= whole.last() + l);
        assert(before.update(before.len() - 1, before.last().push(l.last())) =~= whole.update(
            whole.len() - 1,
            whole.last() + l,
        ));
        assert(split_lines(x + l) =~= split_lines(x).update(
            split_lines(x).len() - 1,
            split_lines(x).last() + l,
        ));
    }
}

/// A newline and then a line without newlines add that line to the lines of `x`.
proof fn lemma_split_new_line(x: Seq<char>, l: Seq<char>)
    requires
        one_line(l),
    ensures
        split_lines(x + seq!['\n'] + l) == split_lines(x).push(l),
{
    let xn = x + seq!['\n'];
    assert(xn.drop_last() =~= x);
    assert(split_lines(xn) == split_lines(x).push(Seq::empty()));
    lemma_split_extend(xn, l);
    assert(Seq::<char>::empty() + l =~= l);
    assert(split_lines(xn).update(split_lines(xn).len() - 1, split_lines(xn).last() + l)
        =~= split_lines(x).push(l));
}

/// The lines of the serialized form: the player's letter, then the columns'.
proof fn lemma_split_serialized(p: Player, b: Seq<Seq<Cell>>, n: int)
    requires
        well_formed(b),
        0 <= n <= WIDTH,
    ensures
        split_lines(seq![char_of(p)] + column_lines(b, n)) == seq![seq![char_of(p)]] + Seq::new(
            n as nat,
            |c: int| line_of_column(b[c]),
        ),
    decreases n,
{
    if n == 0 {
        let x = seq![char_of(p)];
        assert(x + column_lines(b, 0) =~= x);
        assert(x.drop_last() =~= Seq::<char>::empty());
        assert(x.last() != '\n');
        assert(split_lines(Seq::<char>::empty()) == seq![Seq::<char>::empty()]);
        assert(Seq::<char>::empty().push(char_of(p)) =~= seq![char_of(p)]);
        assert(split_lines(x) =~= seq![seq![char_of(p)]]);
        assert(seq![seq![char_of(p)]] + Seq::new(0, |c: int| line_of_column(b[c])) =~= seq![
            seq![char_of(p)],
        ]);
    } else {
        lemma_split_serialized(p, b, n - 1);
        let prefix = seq![char_of(p)] + column_lines(b, n - 1);
        let l = line_of_column(b[n - 1]);
        lemma_landing_row(b[n - 1]);
        lemma_split_new_line(prefix, l);
        assert(seq![char_of(p)] + column_lines(b, n) =~= prefix + seq!['\n'] + l);
        assert(seq![seq![char_of(p)]] + Seq::new(n as nat, |c: int| line_of_column(b[c])) =~= (
        seq![seq![char_of(p)]] + Seq::new((n - 1) as nat, |c: int| line_of_column(b[c]))).push(l));
    }
}

/// The serialized line of a column that obeys gravity describes that column.
proof fn lemma_line_of_column(col: Seq<Cell>)
    requires
        col.len() == HEIGHT,
        settled_column(col),
    ensures
        line_of_column(col).len() <= HEIGHT,
        pieces_line(line_of_column(col)),
        column_of_line(line_of_column(col)) == col,
{
    lemma_landing_row(col);
    let row = landing_row(col);
    assert forall|i: int| 0 <= i < HEIGHT implies #[trigger] column_of_line(line_of_column(col))[i]
        == col[i] by {
        if i >= row {
            if col[i] != Cell::Empty {
                assert(col[row] != Cell::Empty);
            }
        }
    }
    assert(column_of_line(line_of_column(col)) =~= col);
}

/// No error is met in lines that all describe columns.
proof fn lemma_no_line_error(lines: Seq<Seq<char>>, k: int)
    requires
        1 <= k,
        forall|j: int|
            1 <= j < lines.len() ==> (#[trigger] lines[j]).len() <= HEIGHT && pieces_line(lines[j]),
    ensures
        first_line_error(lines, k) is None,
    decreases lines.len() - k,
{
    if k < lines.len() {
        lemma_no_line_error(lines, k + 1);
    }
}

/// Reading the serialized form of a state gives that state back: the text
/// that `to_serialized` writes for `g` is read by `from_string` as `g`'s
/// player and board. Every state that the library builds is well formed.
pub proof fn lemma_round_trip(g: Connect4Game)
    requires
        g.wf(),
    ensures
        parse(serialized(g.spec_player(), g.columns())) == Ok::<
            (Player, Seq<Seq<Cell>>),
            Connect4ParseError,
        >((g.spec_player(), g.columns())),
{
    let p = g.spec_player();
    let b = g.columns();
    let s = serialized(p, b);
    lemma_split_serialized(p, b, WIDTH as int);
    let lines = split_lines(s);
    assert(s.len() > 0);
    assert(lines.len() == WIDTH + 1);
    assert(lines[0] == seq![char_of(p)]);
    assert forall|j: int| 1 <= j < lines.len() implies (#[trigger] lines[j]).len() <= HEIGHT
        && pieces_line(lines[j]) by {
        assert(lines[j] == line_of_column(b[j - 1]));
        lemma_line_of_column(b[j - 1]);
    }
    lemma_no_line_error(lines, 1);
    assert forall|c: int| 0 <= c < WIDTH implies #[trigger] board_of_lines(lines)[c] == b[c] by {
        assert(lines[c + 1] == line_of_column(b[c]));
        lemma_line_of_column(b[c]);
    }
    assert(board_of_lines(lines) =~= b);
}

} // verus!
