use workbench::tictactoe::{
    get_diagonal_majority, get_left_diagonal_majority, get_majority, get_right_diagonal_majority,
    OptimalAgent, TicTacToeCell,
};

#[test]
fn get_majority_empty_row() {
    let slice = &[TicTacToeCell::Empty, TicTacToeCell::Empty, TicTacToeCell::Empty];

    assert_eq!(None, get_majority(slice));
}

#[test]
fn get_majority_no_contention() {
    let slice = &[TicTacToeCell::X, TicTacToeCell::Empty, TicTacToeCell::Empty];

    assert_eq!(Some((TicTacToeCell::X, 1)), get_majority(slice));
}

#[test]
fn get_majority_equal_pairing() {
    let slice = &[TicTacToeCell::X, TicTacToeCell::O, TicTacToeCell::Empty];

    assert_eq!(None, get_majority(slice));
}

#[test]
fn get_majority_filled_row() {
    let slice = &[TicTacToeCell::X, TicTacToeCell::O, TicTacToeCell::O];

    assert_eq!(None, get_majority(slice));
}

#[test]
fn get_majority_never_reports_o() {
    let slice = &[TicTacToeCell::O, TicTacToeCell::O, TicTacToeCell::Empty];
    assert_eq!(None, get_majority(slice));
    let slice = &[TicTacToeCell::X, TicTacToeCell::X, TicTacToeCell::Empty];
    assert_eq!(Some((TicTacToeCell::X, 2)), get_majority(slice));
    let slice = &[TicTacToeCell::X, TicTacToeCell::X, TicTacToeCell::X];
    assert_eq!(None, get_majority(slice));
}

#[test]
fn diagonals_count_every_listed_cell() {
    let board = [TicTacToeCell::O; 9];
    assert_eq!(get_left_diagonal_majority(&board), Some((TicTacToeCell::X, 3)));
    assert_eq!(get_right_diagonal_majority(&board), Some((TicTacToeCell::X, 3)));
    assert_eq!(get_diagonal_majority(&[1, 7], &board), Some((TicTacToeCell::X, 2)));
    assert_eq!(get_diagonal_majority(&[], &board), None);
}

#[test]
fn the_agent_always_plays_the_first_cell() {
    let mut agent = OptimalAgent::new(TicTacToeCell::O);
    let empty = [TicTacToeCell::Empty; 9];
    assert_eq!(agent.get_next_move(&empty, TicTacToeCell::Empty), 0);
    let mut board = empty;
    board[0] = TicTacToeCell::X;
    board[1] = TicTacToeCell::X;
    assert_eq!(agent.get_next_move(&board, TicTacToeCell::Empty), 0);
}
