//! What a node of the search tree knows of its position: the board, how the
//! game stands, the move probabilities, and the outcome once it is over.

use vstd::prelude::*;
use crate::environment::{count_true, stones_of, Environment, GameStatus, Stone};
use crate::score::ONE;

verus! {

/// The outcome that a finished game has for the player who made the last
/// move, in `ONE`-ths: a win counts one, a draw nothing. A game in progress
/// has none.
pub open spec fn spec_terminal_reward(status: GameStatus) -> Option<i32> {
    match status {
        GameStatus::InProgress => None,
        GameStatus::Draw => Some(0i32),
        GameStatus::BlackWin => Some(ONE as i32),
        GameStatus::WhiteWin => Some(ONE as i32),
    }
}

#[verifier::when_used_as_spec(spec_terminal_reward)]
pub fn terminal_reward(status: GameStatus) -> (reward: Option<i32>)
    ensures
        reward == spec_terminal_reward(status),
{
    match status {
        GameStatus::InProgress => None,
        GameStatus::Draw => Some(0),
        GameStatus::BlackWin => Some(ONE as i32),
        GameStatus::WhiteWin => Some(ONE as i32),
    }
}

/// The same probability for every empty cell of `board`, nothing for the
/// others: `ONE` divided by the number of empty cells, rounded down.
pub open spec fn spec_uniform_policy(board: Seq<Stone>) -> Seq<u32> {
    Seq::new(
        board.len(),
        |i: int|
            if board[i] == Stone::Empty {
                (ONE as int / count_true(stones_of(board, Stone::Empty)) as int) as u32
            } else {
                0u32
            },
    )
}

/// The move probabilities that a position gets before it is evaluated.
pub fn uniform_policy(env: &Environment) -> (policy: [u32; 361])
    ensures
        policy@ == spec_uniform_policy(env.board@),
{
    let ghost free = stones_of(env.board@, Stone::Empty);
    let mut count: u32 = 0;
    let mut i: usize = 0;
    while i < 361
        invariant
            i <= 361,
            free == stones_of(env.board@, Stone::Empty),
            count == count_true(free.take(i as int)),
            count <= i,
        decreases 361 - i,
    {
        proof {
            assert(free.take(i + 1).drop_last() =~= free.take(i as int));
        }
        if env.board[i] == Stone::Empty {
            count += 1;
        }
        i += 1;
    }
    assert(free.take(361) =~= free);
    let share: u32 = if count == 0 {
        0
    } else {
        ONE / count
    };
    let mut policy = [0u32; 361];
    let mut j: usize = 0;
    while j < 361
        invariant
            j <= 361,
            free == stones_of(env.board@, Stone::Empty),
            count == count_true(free),
            count > 0 ==> share == ONE as int / count as int,
            forall|k: int| 0 <= k < j ==> (#[trigger] policy[k]) == spec_uniform_policy(env.board@)[k],
        decreases 361 - j,
    {
        if env.board[j] == Stone::Empty {
            proof {
                crate::environment::lemma_count_true_zero(free);
                assert(free[j as int]);
            }
            policy[j] = share;
        } else {
            policy[j] = 0;
        }
        j += 1;
    }
    assert(policy@ =~= spec_uniform_policy(env.board@));
    policy
}

/// The position of a node.
#[derive(Debug, Clone, Copy)]
pub struct BoardState {
    pub env: Environment,
    pub status: GameStatus,
    /// The probability of each move from here, in `ONE`-ths.
    pub policy: [u32; 361],
    /// The outcome for the player who moved last, once the game is over.
    pub z: i32,
}

impl BoardState {
    /// The board is consistent, and a finished game has its outcome.
    pub open spec fn wf(self) -> bool {
        &&& self.env.wf()
        &&& self.z == match spec_terminal_reward(self.status) {
            Some(reward) => reward,
            None => 0i32,
        }
    }

    /// The state of the position `env` that stands as `status`, with the
    /// same probability for every free cell.
    pub fn new(env: Environment, status: GameStatus) -> (state: BoardState)
        ensures
            env.wf() ==> state.wf(),
            state.z == match spec_terminal_reward(status) {
                Some(reward) => reward,
                None => 0i32,
            },
            state.env == env,
            state.status == status,
            state.policy@ == spec_uniform_policy(env.board@),
    {
        let policy = uniform_policy(&env);
        let z: i32 = match terminal_reward(status) {
            Some(reward) => reward,
            None => 0,
        };
        BoardState { env, status, policy, z }
    }

    /// Whether the game is over here.
    pub open spec fn spec_is_terminal(&self) -> bool {
        self.status != GameStatus::InProgress
    }

    #[verifier::when_used_as_spec(spec_is_terminal)]
    pub fn is_terminal(&self) -> (over: bool)
        ensures
            over == self.spec_is_terminal(),
    {
        self.status != GameStatus::InProgress
    }

    /// Whether `action` names a free cell.
    pub open spec fn spec_is_available_action(&self, action: usize) -> bool {
        action < 361 && self.env.legal_moves[action as int]
    }

    #[verifier::when_used_as_spec(spec_is_available_action)]
    pub fn is_available_action(&self, action: usize) -> (free: bool)
        ensures
            free == self.spec_is_available_action(action),
    {
        action < 361 && self.env.legal_moves[action]
    }

    /// The state that follows when the player to move takes the free cell
    /// `action`.
    pub fn play(&self, action: usize) -> (next: BoardState)
        requires
            self.wf(),
            self.spec_is_available_action(action),
        ensures
            next.wf(),
            next.env.follows(self.env, action as int),
            next.status == crate::environment::status_after(
                next.env.board@,
                action as int,
                self.env.turn,
                next.env.legal_move_count as int,
            ),
            next.policy@ == spec_uniform_policy(next.env.board@),
    {
        let mut env = self.env;
        proof {
            crate::environment::lemma_count_true_zero(self.env.legal_moves@);
        }
        let status = env.place_stone(action);
        BoardState::new(env, status)
    }
}

} // verus!
