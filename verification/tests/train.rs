use alpha_zero::environment::{Environment, GameStatus, Turn};
use alpha_zero::state::{terminal_reward, uniform_policy};
use alpha_zero::train::{legal_move_list, reward_for, warm_up, ReplayMemory, Transition};

#[test]
fn reward_goes_by_the_winner() {
    assert_eq!(reward_for(GameStatus::InProgress, Turn::Black), 0);
    assert_eq!(reward_for(GameStatus::Draw, Turn::White), 0);
    assert_eq!(reward_for(GameStatus::BlackWin, Turn::Black), 1);
    assert_eq!(reward_for(GameStatus::BlackWin, Turn::White), -1);
    assert_eq!(reward_for(GameStatus::WhiteWin, Turn::White), 1);
    assert_eq!(reward_for(GameStatus::WhiteWin, Turn::Black), -1);
}

#[test]
fn terminal_reward_is_one_for_a_win() {
    assert_eq!(terminal_reward(GameStatus::InProgress), None);
    assert_eq!(terminal_reward(GameStatus::Draw), Some(0));
    assert_eq!(terminal_reward(GameStatus::BlackWin), Some(1 << 24));
    assert_eq!(terminal_reward(GameStatus::WhiteWin), Some(1 << 24));
}

#[test]
fn uniform_policy_skips_taken_cells() {
    let mut env = Environment::new();
    env.place_stone(0);
    env.place_stone(360);
    let policy = uniform_policy(&env);
    assert_eq!(policy[0], 0);
    assert_eq!(policy[360], 0);
    assert_eq!(policy[1], (1 << 24) / 359);
    assert_eq!(policy.iter().filter(|p| **p != 0).count(), 359);
}

#[test]
fn legal_moves_are_listed_in_order() {
    let mut env = Environment::new();
    env.place_stone(1);
    env.place_stone(3);
    let moves = legal_move_list(&env);
    assert_eq!(moves.len(), 359);
    assert_eq!(&moves[..4], &[0, 2, 4, 5]);
}

#[test]
fn record_keeps_the_boards_of_the_mover() {
    let mut env = Environment::new();
    env.place_stone(0);
    let (transition, status) = Transition::record(&mut env, Turn::White, 1);
    assert_eq!(status, GameStatus::InProgress);
    assert_eq!(transition.action, 1);
    assert_eq!(transition.reward, 0);
    assert_eq!((transition.state[0], transition.state[1]), (-1, 0));
    let next = transition.next_state.expect("the game goes on");
    assert_eq!((next[0], next[1]), (-1, 1));
    assert_eq!(env.turn, Turn::Black);
}

#[test]
fn render_draws_the_board() {
    let mut state = [0i8; 361];
    state[0] = 1;
    state[1] = -1;
    let transition = Transition { state, next_state: None, action: 20, reward: 0 };
    let text = transition.render();
    let lines: Vec<&str> = text.lines().collect();
    assert_eq!(lines.len(), 19);
    assert_eq!(lines[0], "OX-----------------");
    assert_eq!(lines[1], "-A-----------------");
    assert_eq!(lines[18], "-------------------");
    assert_eq!(text.len(), 380);
}

#[test]
fn a_full_memory_drops_its_oldest_move() {
    let mut memory = ReplayMemory::new(2);
    for action in 0..3 {
        memory.push(Transition { state: [0; 361], next_state: None, action, reward: 0 });
    }
    assert_eq!(memory.len(), 2);
    assert_eq!(memory.items[0].action, 1);
    assert_eq!(memory.items[1].action, 2);
}

#[test]
fn warm_up_fills_the_memory() {
    let mut memory = ReplayMemory::new(1_000);
    let tally = warm_up(&mut memory, 500);
    assert_eq!(memory.len(), 500);
    let ended = memory.items.iter().filter(|t| t.next_state.is_none()).count();
    assert_eq!(tally.draw + tally.black_win + tally.white_win, ended);
    // Every game starts from the empty board.
    assert!(memory.items[0].state.iter().all(|v| *v == 0));
    for transition in memory.items.iter() {
        assert_eq!(transition.state[transition.action], 0);
        if let Some(next) = transition.next_state {
            assert_eq!(next[transition.action], 1);
            assert_eq!(transition.reward, 0);
        }
    }
}
