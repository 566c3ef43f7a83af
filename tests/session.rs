use tictactoe::board::{board_to_string, Turn};
use tictactoe::session::{Command, Game, Message};

fn marks(board: [Turn; 9], side: Turn) -> usize {
    board.iter().filter(|&&t| t == side).count()
}

fn alert_text(game: &Game) -> Option<String> {
    match &game.command {
        Command::Alert(s) => Some(s.clone()),
        Command::Idle => None,
    }
}

#[test]
fn new_game_is_empty_for_two_people() {
    let game = Game::new();
    assert_eq!(game.board, [Turn::Empty; 9]);
    assert!(game.turn == Turn::X);
    assert!(game.player == Turn::Multi);
    assert!(alert_text(&game).is_none());
}

#[test]
fn two_people_alternate_and_occupied_cells_are_refused() {
    let mut game = Game::new();
    game.update(Message::Click(4));
    assert!(game.board[4] == Turn::X);
    assert!(game.turn == Turn::O);
    game.update(Message::Click(4));
    assert!(game.board[4] == Turn::X);
    assert!(game.turn == Turn::O);
    game.update(Message::Click(9));
    assert!(game.turn == Turn::O);
    game.update(Message::Click(0));
    assert!(game.board[0] == Turn::O);
    assert!(game.turn == Turn::X);
    game.update(Message::Nothing);
    assert!(game.turn == Turn::X);
}

#[test]
fn win_and_draw_are_announced() {
    let mut game = Game::new();
    for cell in [0, 3, 1, 4, 2] {
        game.update(Message::Click(cell));
    }
    assert_eq!(alert_text(&game), Some("X Wins!".to_string()));
    let before = game.board;
    game.update(Message::Click(8));
    assert_eq!(game.board, before);

    let mut game = Game::new();
    for cell in [0, 1, 2, 4, 3, 5, 7, 6, 8] {
        game.update(Message::Click(cell));
    }
    assert_eq!(alert_text(&game), Some("Draw!".to_string()));
}

#[test]
fn program_answers_the_person() {
    let mut game = Game::new();
    game.update(Message::Player(Turn::X));
    assert_eq!(game.board, [Turn::Empty; 9]);
    let mut after_click = [Turn::Empty; 9];
    after_click[0] = Turn::X;
    let ranking = game.table.get(board_to_string(after_click).as_str()).unwrap().clone();
    game.update(Message::Click(0));
    assert_eq!(marks(game.board, Turn::X), 1);
    assert_eq!(marks(game.board, Turn::O), 1);
    assert!(game.board[ranking[ranking.len() - 1]] == Turn::O);
    assert!(game.turn == Turn::X);
    game.update(Message::Reset);
    assert_eq!(game.board, [Turn::Empty; 9]);
    assert!(game.player == Turn::X);
}

#[test]
fn program_opens_when_the_person_plays_o() {
    let mut game = Game::new();
    game.update(Message::Player(Turn::O));
    assert_eq!(marks(game.board, Turn::X), 1);
    assert_eq!(marks(game.board, Turn::O), 0);
    assert!(game.turn == Turn::O);
    let cell = game.board.iter().position(|&t| t == Turn::X).unwrap();
    game.update(Message::Click(cell));
    assert_eq!(marks(game.board, Turn::O), 0);
    let free = game.board.iter().position(|&t| t == Turn::Empty).unwrap();
    game.update(Message::Click(free));
    assert_eq!(marks(game.board, Turn::O), 1);
    assert_eq!(marks(game.board, Turn::X), 2);
}

#[test]
fn clicks_ignored_when_no_side_is_the_persons() {
    let mut game = Game::new();
    game.update(Message::Player(Turn::Empty));
    assert_eq!(game.board, [Turn::Empty; 9]);
    game.update(Message::Click(0));
    assert_eq!(game.board, [Turn::Empty; 9]);
    assert!(game.turn == Turn::X);
}
