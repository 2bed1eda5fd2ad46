use alpha_zero::environment::{compute_state, Environment, GameStatus, Stone, Turn};

#[test]
fn test_place_stone() {
    let mut env = Environment::new();
    assert_eq!(env.turn, Turn::Black);

    assert_eq!(env.place_stone(0), GameStatus::InProgress);
    assert_eq!(f32::from(env.board[0].value()), 1f32);
    assert_eq!(env.turn, Turn::White);

    assert_eq!(env.place_stone(1), GameStatus::InProgress);
    assert_eq!(f32::from(env.board[1].value()), -1f32);
    assert_eq!(env.turn, Turn::Black);

    assert_eq!(env.place_stone(2), GameStatus::InProgress);
    assert_eq!(f32::from(env.board[2].value()), 1f32);
    assert_eq!(env.turn, Turn::White);

    assert_eq!(env.place_stone(3), GameStatus::InProgress);
    assert_eq!(f32::from(env.board[3].value()), -1f32);
    assert_eq!(env.turn, Turn::Black);

    assert_eq!(env.place_stone(4), GameStatus::InProgress);
    assert_eq!(f32::from(env.board[4].value()), 1f32);
    assert_eq!(env.turn, Turn::White);

    assert_eq!(env.place_stone(5), GameStatus::InProgress);
    assert_eq!(f32::from(env.board[5].value()), -1f32);
    assert_eq!(env.turn, Turn::Black);

    assert_eq!(env.place_stone(6), GameStatus::InProgress);
    assert_eq!(f32::from(env.board[6].value()), 1f32);
    assert_eq!(env.turn, Turn::White);

    assert_eq!(env.place_stone(7), GameStatus::InProgress);
    assert_eq!(f32::from(env.board[7].value()), -1f32);
    assert_eq!(env.turn, Turn::Black);

    assert_eq!(env.place_stone(8), GameStatus::InProgress);
    assert_eq!(f32::from(env.board[8].value()), 1f32);
    assert_eq!(env.turn, Turn::White);

    assert_eq!(env.place_stone(9), GameStatus::InProgress);
    assert_eq!(f32::from(env.board[9].value()), -1f32);
    assert_eq!(env.turn, Turn::Black);

    assert_eq!(env.place_stone(10), GameStatus::InProgress);
    assert_eq!(f32::from(env.board[10].value()), 1f32);
    assert_eq!(env.turn, Turn::White);

    assert_eq!(env.place_stone(11), GameStatus::InProgress);
    assert_eq!(f32::from(env.board[11].value()), -1f32);
    assert_eq!(env.turn, Turn::Black);
}

#[test]
fn test_game_ending_horizontal() {
    let mut env = Environment::new();

    assert_eq!(env.place_stone(0 + 0 * 19), GameStatus::InProgress);
    assert_eq!(env.place_stone(0 + 1 * 19), GameStatus::InProgress);

    assert_eq!(env.place_stone(1 + 0 * 19), GameStatus::InProgress);
    assert_eq!(env.place_stone(1 + 1 * 19), GameStatus::InProgress);

    assert_eq!(env.place_stone(2 + 0 * 19), GameStatus::InProgress);
    assert_eq!(env.place_stone(2 + 1 * 19), GameStatus::InProgress);

    assert_eq!(env.place_stone(3 + 0 * 19), GameStatus::InProgress);
    assert_eq!(env.place_stone(3 + 1 * 19), GameStatus::InProgress);

    assert_eq!(env.place_stone(4 + 0 * 19), GameStatus::BlackWin);
}

#[test]
fn test_game_ending_vertical() {
    let mut env = Environment::new();

    assert_eq!(env.place_stone(0 + 0 * 19), GameStatus::InProgress);
    assert_eq!(env.place_stone(2 + 0 * 19), GameStatus::InProgress);

    assert_eq!(env.place_stone(0 + 1 * 19), GameStatus::InProgress);
    assert_eq!(env.place_stone(2 + 1 * 19), GameStatus::InProgress);

    assert_eq!(env.place_stone(0 + 2 * 19), GameStatus::InProgress);
    assert_eq!(env.place_stone(2 + 2 * 19), GameStatus::InProgress);

    assert_eq!(env.place_stone(0 + 3 * 19), GameStatus::InProgress);
    assert_eq!(env.place_stone(2 + 3 * 19), GameStatus::InProgress);

    assert_eq!(env.place_stone(0 + 4 * 19), GameStatus::BlackWin);
}

#[test]
fn test_game_ending_lt_rb() {
    let mut env = Environment::new();

    for index in 0..Environment::BOARD_SIZE * (Environment::SERIAL_STONE_COUNT - 1) {
        env.place_stone(index);
    }

    assert_eq!(
        env.place_stone(Environment::BOARD_SIZE * (Environment::SERIAL_STONE_COUNT - 1) + 4),
        GameStatus::BlackWin
    );
}

#[test]
fn test_game_ending_lb_rt() {
    let mut env = Environment::new();

    for index in 0..Environment::BOARD_SIZE * (Environment::SERIAL_STONE_COUNT - 1) {
        env.place_stone(index);
    }

    assert_eq!(
        env.place_stone(Environment::BOARD_SIZE * (Environment::SERIAL_STONE_COUNT - 1)),
        GameStatus::BlackWin
    );
}

#[test]
fn opponent_swaps_the_players() {
    assert_eq!(Turn::Black.opponent(), Turn::White);
    assert_eq!(Turn::White.opponent(), Turn::Black);
    assert_eq!(Turn::Black.opponent().opponent(), Turn::Black);
}

#[test]
fn names_of_the_players() {
    assert_eq!(Turn::Black.name(), "Black");
    assert_eq!(Turn::White.name(), "White");
}

#[test]
fn six_in_a_row_is_no_win() {
    // Black on columns 0..=2 and 4..=5 of row 0, then on column 3: six stones.
    let mut env = Environment::new();
    let black = [0usize, 1, 2, 4, 5];
    for (k, cell) in black.iter().enumerate() {
        assert_eq!(env.place_stone(*cell), GameStatus::InProgress);
        assert_eq!(env.place_stone(19 * 10 + 2 * k), GameStatus::InProgress);
    }
    assert_eq!(env.place_stone(3), GameStatus::InProgress);
    assert_eq!(env.board[3], Stone::Black);
}

#[test]
fn try_place_stone_refuses_an_occupied_cell() {
    let mut env = Environment::new();
    assert_eq!(env.try_place_stone(7), Some(GameStatus::InProgress));
    assert_eq!(env.try_place_stone(7), None);
    assert_eq!(env.try_place_stone(361), None);
    assert_eq!(env.turn, Turn::White);
    assert_eq!(env.legal_move_count, 360);
    assert!(!env.legal_moves[7]);
}

#[test]
fn copy_board_negates_for_white() {
    let mut env = Environment::new();
    env.place_stone(3);
    env.place_stone(4);
    let mut seen = [0i8; 361];
    env.copy_board(Turn::Black, &mut seen);
    assert_eq!((seen[3], seen[4], seen[5]), (1, -1, 0));
    env.copy_board(Turn::White, &mut seen);
    assert_eq!((seen[3], seen[4], seen[5]), (-1, 1, 0));
}

#[test]
fn encode_board_gives_two_planes() {
    let mut env = Environment::new();
    env.place_stone(3);
    env.place_stone(4);
    let planes = env.encode_board(Turn::White);
    assert_eq!(planes.len(), 722);
    assert_eq!((planes[6], planes[7]), (0, 1));
    assert_eq!((planes[8], planes[9]), (1, 0));
    assert_eq!((planes[10], planes[11]), (0, 0));
    assert_eq!(planes.iter().map(|v| *v as usize).sum::<usize>(), 2);
}

#[test]
fn compute_state_sees_five_draw_and_neither() {
    let mut board = [0i8; 361];
    for x in 0..4 {
        board[19 * 2 + x] = 1;
    }
    assert_eq!(compute_state(&board, 19 * 2 + 4, 10), Some(1));
    assert_eq!(compute_state(&board, 19 * 3 + 4, 10), None);
    assert_eq!(compute_state(&board, 19 * 3 + 4, 0), Some(0));
    board[19 * 2 + 3] = -1;
    assert_eq!(compute_state(&board, 19 * 2 + 4, 10), None);
    // An index past the board has no cell of its own, but may have neighbours.
    assert_eq!(compute_state(&board, 361 + 19 * 40, 3), None);
}
