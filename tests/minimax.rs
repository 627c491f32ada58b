use gamey::{Coordinates, GameY, Heuristic, MinimaxBot, Movement, PlayerId};
use std::sync::{Arc, Mutex};

/// Test evaluator: a fixed value.
struct FixedHeuristic(i32);

impl Heuristic for FixedHeuristic {
    fn evaluate(&self, _board: &GameY, _player: PlayerId) -> i32 {
        self.0
    }
}

struct CountingHeuristic {
    counter: Arc<Mutex<u32>>,
}

impl Heuristic for CountingHeuristic {
    fn evaluate(&self, _board: &GameY, _player: PlayerId) -> i32 {
        let mut count = self.counter.lock().unwrap();
        *count += 1;
        0
    }
}

#[test]
fn test_minimax_bot_name() {
    let bot = MinimaxBot::new(FixedHeuristic(0), 1);
    assert_eq!(bot.name(), "minimax_bot");
}

#[test]
fn test_choose_move_on_empty_board_returns_some() {
    let bot = MinimaxBot::new(FixedHeuristic(1), 1);
    let board = GameY::new(3);

    let mv = bot.choose_move(&board);
    assert!(mv.is_some());

    let index = mv.unwrap().to_index(board.board_size());
    assert!(board.available_cells().contains(&index));
}

#[test]
fn test_choose_move_on_full_board_returns_none() {
    let bot = MinimaxBot::new(FixedHeuristic(1), 1);
    let mut board = GameY::new(2);

    for (i, &player_id) in [0, 1, 0].iter().enumerate() {
        let player = PlayerId::new(player_id);
        let coords = Coordinates::from_index(i as u32, board.board_size());
        board.add_move(Movement::Placement { player, coords }).unwrap();
    }

    let mv = bot.choose_move(&board);
    assert!(mv.is_none());
}

#[test]
fn test_minimax_returns_heuristic_score() {
    let bot = MinimaxBot::new(FixedHeuristic(42), 1);
    let board = GameY::new(3);
    let player = board.next_player().unwrap();

    let score = bot.minimax(&board, player, 0, 1);
    assert_eq!(score, 42);
}

#[test]
fn test_minimax_prefers_max_over_min() {
    let bot = MinimaxBot::new(FixedHeuristic(10), 1);
    let board = GameY::new(3);
    let player = board.next_player().unwrap();

    let score = bot.minimax(&board, player, 0, 1);
    assert_eq!(score, 10);
}

#[test]
fn test_generate_moves_returns_all_available_cells() {
    let board = GameY::new(3);
    let moves = MinimaxBot::<FixedHeuristic>::generate_moves(&board);

    assert_eq!(moves.len(), board.available_cells().len());
    for mv in moves {
        let idx = mv.to_index(board.board_size());
        assert!(board.available_cells().contains(&idx));
    }
}

#[test]
fn test_minimax_detects_forced_win_depth_2() {
    let bot = MinimaxBot::new(FixedHeuristic(0), 2);
    let board = GameY::new(3);

    let winning_index = board.available_cells()[0];
    let winning_coords = Coordinates::from_index(winning_index, board.board_size());

    let mv = bot.choose_move(&board).unwrap();

    assert_eq!(mv, winning_coords);
}

#[test]
fn test_minimax_avoids_immediate_loss_depth_2() {
    let bot = MinimaxBot::new(FixedHeuristic(0), 2);
    let mut board = GameY::new(3);

    let p0 = PlayerId::new(0);
    let p1 = PlayerId::new(1);

    board
        .add_move(Movement::Placement { player: p0, coords: Coordinates::new(1, 0, 1) })
        .unwrap();
    board
        .add_move(Movement::Placement { player: p1, coords: Coordinates::new(2, 0, 0) })
        .unwrap();
    board
        .add_move(Movement::Placement { player: p0, coords: Coordinates::new(0, 1, 1) })
        .unwrap();
    board
        .add_move(Movement::Placement { player: p1, coords: Coordinates::new(1, 1, 0) })
        .unwrap();

    let blocking_move = Coordinates::new(0, 2, 0);

    let chosen_move = bot.choose_move(&board).unwrap();

    assert_eq!(chosen_move, blocking_move);
}

#[test]
fn test_depth_increases_node_count() {
    let counter = Arc::new(Mutex::new(0));
    let heuristic = CountingHeuristic { counter: counter.clone() };

    let bot = MinimaxBot::new(heuristic, 3);
    let board = GameY::new(3);

    let player = board.next_player().unwrap();
    bot.minimax(&board, player, 0, 3);

    let calls = *counter.lock().unwrap();

    assert_eq!(calls, 120);
}
