//! Line counting for a tic-tac-toe agent, and the agent's choice of move.
//!
//! A board is 9 cells in row-major order: row `i` holds cells `3i .. 3i+3`,
//! column `i` holds cells `i`, `i+3`, `i+6`.
use vstd::prelude::*;

verus! {

/// The content of a cell.
#[derive(Debug, PartialEq, Eq, Clone, Copy, Structural)]
pub enum TicTacToeCell {
    X,
    O,
    Empty,
}

/// How many cells of `cells` hold `piece`.
pub open spec fn count_piece(cells: Seq<TicTacToeCell>, piece: TicTacToeCell) -> nat
    decreases cells.len(),
{
    if cells.len() == 0 {
        0
    } else {
        count_piece(cells.drop_last(), piece) + if cells.last() == piece {
            1nat
        } else {
            0nat
        }
    }
}

/// What `get_majority` reports for a line: nothing when exactly three of its
/// cells are taken; `X` with its count when X holds more cells than O;
/// nothing otherwise (O is never reported).
pub open spec fn majority(cells: Seq<TicTacToeCell>) -> Option<(TicTacToeCell, usize)> {
    let x = count_piece(cells, TicTacToeCell::X);
    let o = count_piece(cells, TicTacToeCell::O);
    if x + o == 3 {
        None
    } else if x > o {
        Some((TicTacToeCell::X, x as usize))
    } else {
        None
    }
}

/// A cell holds `piece`.
pub open spec fn holds(piece: TicTacToeCell) -> spec_fn(TicTacToeCell) -> bool {
    |c: TicTacToeCell| c == piece
}

/// How many cells of `cells` hold `piece`.
pub open spec fn pieces(cells: Seq<TicTacToeCell>, piece: TicTacToeCell) -> int {
    cells.filter(holds(piece)).len() as int
}

proof fn lemma_count_piece_is_pieces(cells: Seq<TicTacToeCell>, piece: TicTacToeCell)
    ensures
        count_piece(cells, piece) == pieces(cells, piece),
    decreases cells.len(),
{
    if cells.len() > 0 {
        lemma_count_piece_is_pieces(cells.drop_last(), piece);
        assert(cells =~= cells.drop_last().push(cells.last()));
        cells.drop_last().lemma_filter_len_push(holds(piece), cells.last());
    } else {
        reveal(Seq::filter);
        assert(cells.filter(holds(piece)) =~= Seq::<TicTacToeCell>::empty());
    }
}

proof fn lemma_pieces_add_up(cells: Seq<TicTacToeCell>)
    ensures
        count_piece(cells, TicTacToeCell::X) + count_piece(cells, TicTacToeCell::O) + count_piece(
            cells,
            TicTacToeCell::Empty,
        ) == cells.len(),
        (forall|i: int| 0 <= i < cells.len() ==> cells[i] != TicTacToeCell::Empty) ==> count_piece(
            cells,
            TicTacToeCell::Empty,
        ) == 0,
    decreases cells.len(),
{
    if cells.len() > 0 {
        lemma_pieces_add_up(cells.drop_last());
    }
}

/// A line of three cells that are all taken has no majority.
pub proof fn lemma_full_line_has_no_majority(cells: Seq<TicTacToeCell>)
    requires
        cells.len() == 3,
        forall|i: int| 0 <= i < 3 ==> cells[i] != TicTacToeCell::Empty,
    ensures
        majority(cells) is None,
{
    lemma_pieces_add_up(cells);
}

/// On a line of three with an empty cell, the majority is X with the number
/// of X's exactly when X's outnumber O's, and nothing otherwise; O is never
/// reported.
pub proof fn lemma_open_line_majority(cells: Seq<TicTacToeCell>)
    requires
        cells.len() == 3,
        exists|i: int| 0 <= i < 3 && cells[i] == TicTacToeCell::Empty,
    ensures
        pieces(cells, TicTacToeCell::X) > pieces(cells, TicTacToeCell::O) ==> majority(cells) == Some(
            (TicTacToeCell::X, pieces(cells, TicTacToeCell::X) as usize),
        ),
        pieces(cells, TicTacToeCell::X) <= pieces(cells, TicTacToeCell::O) ==> majority(cells) is None,
        majority(cells) matches Some((p, _)) ==> p == TicTacToeCell::X,
{
    lemma_count_piece_is_pieces(cells, TicTacToeCell::X);
    lemma_count_piece_is_pieces(cells, TicTacToeCell::O);
    lemma_pieces_add_up(cells);
    let i = choose|i: int| 0 <= i < 3 && cells[i] == TicTacToeCell::Empty;
    lemma_count_piece_is_pieces(cells, TicTacToeCell::Empty);
    assert(cells.filter(holds(TicTacToeCell::Empty)).contains(cells[i])) by {
        cells.filter_lemma(holds(TicTacToeCell::Empty));
        assert(cells.contains(cells[i]));
    }
}

proof fn lemma_count_piece_bounded(cells: Seq<TicTacToeCell>, piece: TicTacToeCell)
    ensures
        count_piece(cells, piece) <= cells.len(),
    decreases cells.len(),
{
    if cells.len() > 0 {
        lemma_count_piece_bounded(cells.drop_last(), piece);
    }
}

proof fn lemma_counts_bounded(cells: Seq<TicTacToeCell>)
    ensures
        count_piece(cells, TicTacToeCell::X) + count_piece(cells, TicTacToeCell::O) <= cells.len(),
    decreases cells.len(),
{
    if cells.len() > 0 {
        lemma_counts_bounded(cells.drop_last());
    }
}

/// Counts the pieces on a line and reports the majority (see `majority`).
pub fn get_majority(cells: &[TicTacToeCell]) -> (r: Option<(TicTacToeCell, usize)>)
    ensures
        r == majority(cells@),
{
    let mut x: usize = 0;
    let mut o: usize = 0;
    let mut i: usize = 0;
    while i < cells.len()
        invariant
            0 <= i <= cells@.len(),
            x == count_piece(cells@.take(i as int), TicTacToeCell::X),
            o == count_piece(cells@.take(i as int), TicTacToeCell::O),
        decreases cells@.len() - i,
    {
        proof {
            assert(cells@.take(i + 1).drop_last() =~= cells@.take(i as int));
            lemma_count_piece_bounded(cells@.take(i as int), TicTacToeCell::X);
            lemma_count_piece_bounded(cells@.take(i as int), TicTacToeCell::O);
        }
        match cells[i] {
            TicTacToeCell::X => x = x + 1,
            TicTacToeCell::O => o = o + 1,
            TicTacToeCell::Empty => {},
        }
        i = i + 1;
    }
    proof {
        assert(cells@.take(cells@.len() as int) =~= cells@);
        lemma_counts_bounded(cells@);
    }
    if x + o == 3 {
        None
    } else if x > o {
        Some((TicTacToeCell::X, x))
    } else {
        None
    }
}

/// Counts the cells of `board` at `positions`.  Every listed cell counts
/// for X, whatever it holds: the result is `X` with the number of positions,
/// or nothing when no position is listed.
pub fn get_diagonal_majority(positions: &[usize], board: &[TicTacToeCell; 9]) -> (r: Option<
    (TicTacToeCell, u8),
>)
    requires
        positions@.len() <= 255,
        forall|k: int| 0 <= k < positions@.len() ==> #[trigger] positions@[k] < 9,
    ensures
        r == if positions@.len() > 0 {
            Some((TicTacToeCell::X, positions@.len() as u8))
        } else {
            None::<(TicTacToeCell, u8)>
        },
{
    let mut x: u8 = 0;
    let o: u8 = 0;
    let mut k: usize = 0;
    while k < positions.len()
        invariant
            0 <= k <= positions@.len(),
            positions@.len() <= 255,
            forall|j: int| 0 <= j < positions@.len() ==> #[trigger] positions@[j] < 9,
            x == k,
        decreases positions@.len() - k,
    {
        let _cell = board[positions[k]];
        x = x + 1;
        k = k + 1;
    }
    if x > o {
        Some((TicTacToeCell::X, x))
    } else {
        None
    }
}

/// `get_diagonal_majority` on the diagonal through cells 0, 4 and 8.
pub fn get_left_diagonal_majority(board: &[TicTacToeCell; 9]) -> (r: Option<(TicTacToeCell, u8)>)
    ensures
        r == Some((TicTacToeCell::X, 3u8)),
{
    let positions: [usize; 3] = [0, 4, 8];
    get_diagonal_majority(positions.as_slice(), board)
}

/// `get_diagonal_majority` on the diagonal through cells 2, 4 and 6.
pub fn get_right_diagonal_majority(board: &[TicTacToeCell; 9]) -> (r: Option<(TicTacToeCell, u8)>)
    ensures
        r == Some((TicTacToeCell::X, 3u8)),
{
    let positions: [usize; 3] = [2, 4, 6];
    get_diagonal_majority(positions.as_slice(), board)
}

/// The cells of row `i`.
fn row_cells(board: &[TicTacToeCell; 9], i: usize) -> (row: [TicTacToeCell; 3])
    requires
        i < 3,
    ensures
        row@ == seq![board@[3 * i as int], board@[3 * i + 1], board@[3 * i + 2]],
{
    let row = [board[3 * i], board[3 * i + 1], board[3 * i + 2]];
    assert(row@ =~= seq![board@[3 * i as int], board@[3 * i + 1], board@[3 * i + 2]]);
    row
}

/// The cells of column `i`.
fn col_cells(board: &[TicTacToeCell; 9], i: usize) -> (col: [TicTacToeCell; 3])
    requires
        i < 3,
    ensures
        col@ == seq![board@[i as int], board@[i + 3], board@[i + 6]],
{
    let col = [board[i], board[i + 3], board[i + 6]];
    assert(col@ =~= seq![board@[i as int], board@[i + 3], board@[i + 6]]);
    col
}

/// An agent that plays `X` or `O`.
pub struct OptimalAgent(TicTacToeCell);

impl OptimalAgent {
    /// An agent playing `player`, which is a piece, not an empty cell.
    pub fn new(player: TicTacToeCell) -> (agent: Self)
        requires
            player != TicTacToeCell::Empty,
        ensures
            agent.piece() == player,
    {
        OptimalAgent(player)
    }

    /// The piece the agent plays.
    pub closed spec fn piece(&self) -> TicTacToeCell {
        self.0
    }

    /// The cell to play in row `i`: always the first cell.
    fn place_in_row(&self, _i: usize, _board: &[TicTacToeCell; 9]) -> (cell: usize)
        ensures
            cell == 0,
    {
        0
    }

    /// The cell to play in column `i`: always the first cell.
    fn place_in_col(&self, _i: usize, _board: &[TicTacToeCell; 9]) -> (cell: usize)
        ensures
            cell == 0,
    {
        0
    }

    /// The cell to play on diagonal `i`: always the first cell.
    fn place_in_diagonal(&self, _i: usize, _board: &[TicTacToeCell; 9]) -> (cell: usize)
        ensures
            cell == 0,
    {
        0
    }

    /// The cell to play when no line decides: always the first cell.
    fn place_central(&self, _board: &[TicTacToeCell; 9]) -> (cell: usize)
        ensures
            cell == 0,
    {
        0
    }

    /// The agent's next move on `board`, where `winner` is the piece the
    /// board reports as having won (`Empty` while nobody has).  A line with
    /// two or more of a piece is played first, rows before columns before
    /// the diagonal; as every placement picks the first cell and the
    /// diagonal always counts as decided, the move is always cell 0.
    pub fn get_next_move(&mut self, board: &[TicTacToeCell; 9], winner: TicTacToeCell) -> (cell: usize)
        requires
            winner == TicTacToeCell::Empty,
        ensures
            cell == 0,
    {
        // The line to play in when no line is decided: its kind (0 row,
        // 1 column, 2 diagonal) and its number.
        let mut max: Option<(i8, usize)> = None;
        let mut i: usize = 0;
        while i < 3
            invariant
                0 <= i <= 3,
                max matches Some((kind, _)) ==> 0 <= kind <= 2,
            decreases 3 - i,
        {
            let row = row_cells(board, i);
            if let Some((_player, count)) = get_majority(row.as_slice()) {
                if count >= 2 {
                    return self.place_in_row(i, board);
                }
                if max.is_none() {
                    max = Some((0, i));
                }
            }
            i = i + 1;
        }
        let mut i: usize = 0;
        while i < 3
            invariant
                0 <= i <= 3,
                max matches Some((kind, _)) ==> 0 <= kind <= 2,
            decreases 3 - i,
        {
            let col = col_cells(board, i);
            if let Some((_player, count)) = get_majority(col.as_slice()) {
                if count >= 2 {
                    return self.place_in_col(i, board);
                }
                if max.is_none() {
                    max = Some((1, i));
                }
            }
            i = i + 1;
        }
        if let Some((_player, count)) = get_left_diagonal_majority(board) {
            if count >= 2 {
                return self.place_in_diagonal(0, board);
            }
            if max.is_none() {
                max = Some((2, 0));
            }
        }
        if let Some((_player, count)) = get_left_diagonal_majority(board) {
            if count >= 2 {
                return self.place_in_diagonal(1, board);
            }
            if max.is_none() {
                max = Some((2, 1));
            }
        }
        if let Some((kind, index)) = max {
            if kind == 0 {
                self.place_in_row(index, board)
            } else if kind == 1 {
                self.place_in_col(index, board)
            } else {
                self.place_in_diagonal(index, board)
            }
        } else {
            self.place_central(board)
        }
    }
}

} // verus!
