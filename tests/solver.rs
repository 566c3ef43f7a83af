use tictactoe::board::{board_to_string, get_moves, is_won, new_turn, EndType, Turn};
use tictactoe::table::{calc_ai, select_move};
use tictactoe::tree::get_boards;

const E: Turn = Turn::Empty;
const X: Turn = Turn::X;
const O: Turn = Turn::O;

fn empty_cells_of(board: [Turn; 9]) -> Vec<usize> {
    (0..9).filter(|&i| board[i] == Turn::Empty).collect()
}

#[test]
fn scenario_empty_board_opening() {
    let board = [E; 9];
    assert!(is_won(board) == EndType::Ongoing);
    let table = calc_ai();
    let m = select_move(&table, board, X);
    assert!([0, 2, 4, 6, 8].contains(&m));
    let root = get_boards(X, board);
    let chosen = root.moves.iter().find(|mv| mv.index == m).unwrap();
    assert!(chosen.board.score >= 0);
    assert_eq!(root.score, 0);
}

#[test]
fn scenario_completing_line_is_doubled() {
    let board = [X, X, E, O, O, E, E, E, E];
    let mut child = board;
    child[2] = X;
    let node = get_boards(O, child);
    assert!(node.end);
    assert_eq!(node.score, 1);
    assert!(node.moves.is_empty());
    let parent = get_boards(X, board);
    let mv = parent.moves.iter().find(|mv| mv.index == 2).unwrap();
    assert!(mv.board.end);
    assert_eq!(mv.board.score, 2);
    assert_eq!(parent.score, 1);
}

#[test]
fn scenario_full_board_is_draw() {
    let board = [X, O, X, X, O, O, O, X, X];
    assert!(is_won(board) == EndType::Draw);
    let node = get_boards(X, board);
    assert_eq!(node.score, 0);
    assert!(node.end);
    assert!(node.moves.is_empty());
}

#[test]
fn scenario_side_completes_its_line() {
    let board = [X, X, E, O, O, E, E, E, E];
    let table = calc_ai();
    assert_eq!(select_move(&table, board, X), 2);
    let ranking = table.get(board_to_string(board).as_str()).unwrap();
    assert_eq!(ranking[0], 2);
    let board = [O, E, X, O, X, E, E, E, E];
    assert_eq!(select_move(&table, board, X), 6);
}

#[test]
fn classify_lines_draws_and_ongoing() {
    assert!(is_won([X, X, X, O, O, E, E, E, E]) == EndType::Win);
    assert!(is_won([O, X, X, O, X, E, O, E, E]) == EndType::Win);
    assert!(is_won([X, O, O, E, X, E, E, E, X]) == EndType::Win);
    assert!(is_won([X, X, O, E, O, E, O, E, X]) == EndType::Win);
    assert!(is_won([X, X, X, O, O, O, X, O, O]) == EndType::Win);
    assert!(is_won([X, O, E, E, E, E, E, E, E]) == EndType::Ongoing);
    assert!(is_won([O, X, O, O, X, X, X, O, O]) == EndType::Draw);
    assert!(is_won([Turn::Multi, Turn::Multi, Turn::Multi, E, E, E, E, E, E]) == EndType::Win);
}

#[test]
fn moves_are_empty_cells_ascending() {
    assert_eq!(get_moves([E; 9]), vec![0, 1, 2, 3, 4, 5, 6, 7, 8]);
    assert_eq!(get_moves([X, E, O, E, X, E, E, O, E]), vec![1, 3, 5, 6, 8]);
    assert_eq!(get_moves([X, O, X, X, O, O, O, X, X]), Vec::<usize>::new());
}

#[test]
fn sides_alternate() {
    assert!(new_turn(X) == O);
    assert!(new_turn(O) == X);
    assert!(new_turn(E) == E);
    assert!(new_turn(Turn::Multi) == E);
}

#[test]
fn board_keys() {
    assert_eq!(board_to_string([E; 9]), "         ");
    assert_eq!(board_to_string([X, O, E, E, X, E, E, E, O]), "XO  X   O");
    assert_eq!(board_to_string([Turn::Multi, E, E, E, E, E, E, E, X]), "Multiplayer       X");
    assert_eq!(Turn::X.weight(), 1);
    assert_eq!(Turn::O.weight(), -1);
    assert_eq!(Turn::Empty.weight(), 0);
}

#[test]
fn table_holds_every_reachable_board() {
    let table = calc_ai();
    assert_eq!(table.len(), 5478);
    let boards = [
        [E; 9],
        [X, E, E, E, E, E, E, E, E],
        [X, O, E, E, E, E, E, E, E],
        [X, O, X, E, O, E, E, E, E],
        [X, O, X, O, X, O, E, E, E],
    ];
    for board in boards {
        let ranking = table.get(board_to_string(board).as_str()).unwrap();
        let mut sorted = ranking.clone();
        sorted.sort();
        assert_eq!(sorted, empty_cells_of(board));
    }
    let won = [X, X, X, O, O, E, E, E, E];
    assert!(table.get(board_to_string(won).as_str()).unwrap().is_empty());
    let unreachable = [O, O, E, E, E, E, E, E, E];
    assert!(table.get(board_to_string(unreachable).as_str()).is_none());
}

#[test]
fn ranking_orders_by_value_then_index() {
    let board = [X, X, E, O, O, E, E, E, E];
    let table = calc_ai();
    let ranking = table.get(board_to_string(board).as_str()).unwrap();
    let node = get_boards(X, board);
    let score = |i: usize| node.moves.iter().find(|mv| mv.index == i).unwrap().board.score;
    for w in ranking.windows(2) {
        let (a, b) = (score(w[0]), score(w[1]));
        assert!(a > b || (a == b && w[0] < w[1]));
    }
}

#[test]
fn selected_cells_are_empty() {
    let table = calc_ai();
    let boards = [
        ([E; 9], X),
        ([X, E, E, E, E, E, E, E, E], O),
        ([X, O, E, E, X, E, E, E, E], O),
        ([X, O, X, E, O, E, E, E, E], X),
        ([X, O, X, O, X, O, E, E, E], X),
    ];
    for (board, side) in boards {
        let m = select_move(&table, board, side);
        assert!(board[m] == Turn::Empty);
    }
    let board = [X, E, E, E, E, E, E, E, E];
    let ranking = table.get(board_to_string(board).as_str()).unwrap();
    assert_eq!(select_move(&table, board, O), ranking[ranking.len() - 1]);
}

#[test]
fn rebuilt_table_is_identical() {
    let first = calc_ai();
    let second = calc_ai();
    assert_eq!(first.len(), second.len());
    let boards = [
        [E; 9],
        [X, E, E, E, E, E, E, E, E],
        [X, O, X, E, O, E, E, E, E],
        [X, X, E, O, O, E, E, E, E],
    ];
    for board in boards {
        let key = board_to_string(board);
        assert_eq!(first.get(key.as_str()), second.get(key.as_str()));
    }
}
