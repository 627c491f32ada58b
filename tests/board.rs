use gamey::{Coordinates, GameY, GameYError, Heuristic, Movement, PlayerId, PlayerSet, SetBasedHeuristic};

fn place(board: &mut GameY, id: u32, x: u32, y: u32, z: u32) -> Result<(), GameYError> {
    board.add_move(Movement::Placement { player: PlayerId::new(id), coords: Coordinates::new(x, y, z) })
}

#[test]
fn index_to_coordinates_on_size_three() {
    let expected = [(2, 0, 0), (1, 0, 1), (1, 1, 0), (0, 0, 2), (0, 1, 1), (0, 2, 0)];
    for (i, &(x, y, z)) in expected.iter().enumerate() {
        assert_eq!(Coordinates::from_index(i as u32, 3), Coordinates::new(x, y, z));
        assert_eq!(Coordinates::new(x, y, z).to_index(3), i as u32);
    }
}

#[test]
fn index_round_trip_on_several_sizes() {
    for size in 1..=12u32 {
        let cells = size * (size + 1) / 2;
        for i in 0..cells {
            let c = Coordinates::from_index(i, size);
            assert_eq!(c.x + c.y + c.z, size - 1);
            assert_eq!(c.to_index(size), i);
        }
    }
}

#[test]
fn new_board_is_empty_with_first_player_to_move() {
    let board = GameY::new(4);
    assert_eq!(board.board_size(), 4);
    assert_eq!(board.available_cells(), (0..10).collect::<Vec<u32>>());
    assert_eq!(board.next_player(), Some(PlayerId::new(0)));
    assert_eq!(board.winner(), None);
    assert!(!board.check_game_over());
}

#[test]
fn turns_alternate_and_cells_fill() {
    let mut board = GameY::new(3);
    place(&mut board, 0, 1, 0, 1).unwrap();
    assert_eq!(board.next_player(), Some(PlayerId::new(1)));
    place(&mut board, 1, 0, 1, 1).unwrap();
    assert_eq!(board.next_player(), Some(PlayerId::new(0)));
    assert_eq!(board.available_cells(), vec![0, 2, 3, 5]);
}

#[test]
fn occupied_cell_is_refused() {
    let mut board = GameY::new(3);
    place(&mut board, 0, 1, 0, 1).unwrap();
    assert_eq!(place(&mut board, 1, 1, 0, 1), Err(GameYError::Occupied));
    assert_eq!(board.next_player(), Some(PlayerId::new(1)));
}

#[test]
fn coordinates_off_the_board_are_refused() {
    let mut board = GameY::new(3);
    assert_eq!(place(&mut board, 0, 1, 1, 1), Err(GameYError::InvalidCoordinates));
    assert_eq!(board.available_cells().len(), 6);
}

#[test]
fn unknown_player_is_refused() {
    let mut board = GameY::new(3);
    assert_eq!(place(&mut board, 2, 2, 0, 0), Err(GameYError::UnknownPlayer));
}

#[test]
fn connecting_three_sides_wins_and_ends_the_game() {
    let mut board = GameY::new(2);
    place(&mut board, 0, 1, 0, 0).unwrap();
    place(&mut board, 1, 0, 0, 1).unwrap();
    assert_eq!(board.winner(), None);
    place(&mut board, 0, 0, 1, 0).unwrap();
    assert_eq!(board.winner(), Some(PlayerId::new(0)));
    assert!(board.check_game_over());
    assert_eq!(board.next_player(), None);
}

#[test]
fn moves_after_a_win_are_refused() {
    let mut board = GameY::new(3);
    place(&mut board, 0, 2, 0, 0).unwrap();
    place(&mut board, 0, 1, 1, 0).unwrap();
    assert_eq!(board.winner(), None);
    place(&mut board, 0, 0, 2, 0).unwrap();
    assert_eq!(board.winner(), Some(PlayerId::new(0)));
    assert_eq!(place(&mut board, 1, 1, 0, 1), Err(GameYError::GameOver));
}

#[test]
fn sets_of_player_lists_each_group_once() {
    let mut board = GameY::new(4);
    place(&mut board, 0, 3, 0, 0).unwrap();
    place(&mut board, 0, 2, 1, 0).unwrap();
    place(&mut board, 1, 1, 1, 1).unwrap();
    place(&mut board, 0, 0, 1, 2).unwrap();
    let sets = board.sets_of_player(PlayerId::new(0));
    assert_eq!(
        sets,
        vec![
            PlayerSet { touches_side_a: false, touches_side_b: true, touches_side_c: true, size: 2 },
            PlayerSet { touches_side_a: true, touches_side_b: false, touches_side_c: false, size: 1 },
        ]
    );
    assert_eq!(board.sets_of_player(PlayerId::new(1)).len(), 1);
}

#[test]
fn set_heuristic_counts_sides_then_size() {
    let mut board = GameY::new(3);
    place(&mut board, 0, 1, 0, 1).unwrap();
    place(&mut board, 0, 0, 1, 1).unwrap();
    assert_eq!(SetBasedHeuristic.evaluate(&board, PlayerId::new(0)), 22);
    assert_eq!(SetBasedHeuristic.evaluate(&board, PlayerId::new(1)), 0);
}

#[test]
fn set_heuristic_prefers_more_sides_over_more_cells() {
    let mut board = GameY::new(5);
    place(&mut board, 0, 4, 0, 0).unwrap();
    place(&mut board, 0, 2, 1, 1).unwrap();
    place(&mut board, 0, 1, 2, 1).unwrap();
    place(&mut board, 0, 1, 1, 2).unwrap();
    assert_eq!(SetBasedHeuristic.evaluate(&board, PlayerId::new(0)), 21);
}
