use gamey::{Coordinates, GameY, Heuristic, MinimaxBot, Movement, PlayerId, SetBasedHeuristic, LOSS_SCORE, WIN_SCORE};
use std::sync::{Arc, Mutex};

struct Constant(i32);

impl Heuristic for Constant {
    fn evaluate(&self, _board: &GameY, _player: PlayerId) -> i32 {
        self.0
    }
}

struct Counting(Arc<Mutex<u32>>);

impl Heuristic for Counting {
    fn evaluate(&self, _board: &GameY, _player: PlayerId) -> i32 {
        *self.0.lock().unwrap() += 1;
        5
    }
}

fn place(board: &mut GameY, id: u32, x: u32, y: u32, z: u32) {
    board
        .add_move(Movement::Placement { player: PlayerId::new(id), coords: Coordinates::new(x, y, z) })
        .unwrap();
}

fn won_board() -> GameY {
    let mut board = GameY::new(2);
    place(&mut board, 0, 1, 0, 0);
    place(&mut board, 1, 0, 0, 1);
    place(&mut board, 0, 0, 1, 0);
    board
}

#[test]
fn search_at_depth_bound_returns_heuristic() {
    let bot = MinimaxBot::new(Constant(7), 2);
    let mut board = GameY::new(3);
    place(&mut board, 0, 1, 0, 1);
    assert_eq!(bot.minimax(&board, PlayerId::new(0), 2, 2), 7);
    assert_eq!(bot.minimax(&board, PlayerId::new(1), 5, 5), 7);
}

#[test]
fn decided_board_scores_sentinels() {
    let bot = MinimaxBot::new(Constant(7), 3);
    let board = won_board();
    assert_eq!(bot.evaluate(&board, PlayerId::new(0)), WIN_SCORE);
    assert_eq!(bot.evaluate(&board, PlayerId::new(1)), LOSS_SCORE);
    assert_eq!(bot.minimax(&board, PlayerId::new(0), 0, 3), WIN_SCORE);
    assert_eq!(bot.minimax(&board, PlayerId::new(1), 0, 3), LOSS_SCORE);
}

#[test]
fn undecided_board_is_scored_by_heuristic() {
    let bot = MinimaxBot::new(Constant(-3), 1);
    let board = GameY::new(3);
    assert_eq!(bot.evaluate(&board, PlayerId::new(0)), -3);
}

#[test]
fn finished_game_gets_no_move() {
    let bot = MinimaxBot::new(Constant(0), 2);
    assert_eq!(bot.choose_move(&won_board()), None);
}

#[test]
fn constant_heuristic_picks_first_available_cell() {
    let bot = MinimaxBot::new(Constant(9), 1);
    let mut board = GameY::new(4);
    place(&mut board, 0, 3, 0, 0);
    place(&mut board, 1, 2, 0, 1);
    let first = board.available_cells()[0];
    assert_eq!(first, 2);
    assert_eq!(bot.choose_move(&board), Some(Coordinates::from_index(first, 4)));
}

#[test]
fn blocking_move_found_at_depth_three() {
    let bot = MinimaxBot::new(Constant(0), 3);
    let mut board = GameY::new(3);
    place(&mut board, 0, 1, 0, 1);
    place(&mut board, 1, 2, 0, 0);
    place(&mut board, 0, 0, 1, 1);
    place(&mut board, 1, 1, 1, 0);
    assert_eq!(bot.choose_move(&board), Some(Coordinates::new(0, 2, 0)));
}

#[test]
fn minimizing_reply_is_taken_when_opponent_wins() {
    let bot = MinimaxBot::new(Constant(0), 2);
    let mut board = GameY::new(3);
    place(&mut board, 0, 1, 0, 1);
    place(&mut board, 1, 2, 0, 0);
    place(&mut board, 0, 0, 1, 1);
    place(&mut board, 1, 1, 1, 0);
    place(&mut board, 0, 0, 0, 2);
    assert_eq!(board.winner(), None);
    assert_eq!(bot.minimax(&board, PlayerId::new(0), 0, 2), LOSS_SCORE);
    assert_eq!(bot.minimax(&board, PlayerId::new(1), 0, 2), WIN_SCORE);
}

#[test]
fn node_count_at_depth_two() {
    let counter = Arc::new(Mutex::new(0));
    let bot = MinimaxBot::new(Counting(counter.clone()), 2);
    let board = GameY::new(3);
    assert_eq!(bot.minimax(&board, PlayerId::new(0), 0, 2), 5);
    assert_eq!(*counter.lock().unwrap(), 30);
}

#[test]
fn set_heuristic_bot_takes_a_corner() {
    let bot = MinimaxBot::new(SetBasedHeuristic, 1);
    let board = GameY::new(3);
    assert_eq!(bot.choose_move(&board), Some(Coordinates::new(2, 0, 0)));
}
