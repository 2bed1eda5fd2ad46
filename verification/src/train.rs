//! Self-play by random moves, recorded move by move for training.

use vstd::prelude::*;
use vstd::string::StringExecFns;
use std::collections::VecDeque;
use crate::environment::{lemma_count_true_zero, status_after, Environment, GameStatus, Stone, Turn};
use crate::sample::{index_below, thread_generator};

verus! {

/// What the game is worth to `turn` when it stands as `status`: 1 for a
/// win of `turn`, -1 for a win of the other player, 0 for a draw or a game
/// in progress.
pub open spec fn spec_reward_for(status: GameStatus, turn: Turn) -> i8 {
    match status {
        GameStatus::InProgress => 0i8,
        GameStatus::Draw => 0i8,
        GameStatus::BlackWin => if turn == Turn::Black {
            1i8
        } else {
            -1i8
        },
        GameStatus::WhiteWin => if turn == Turn::White {
            1i8
        } else {
            -1i8
        },
    }
}

#[verifier::when_used_as_spec(spec_reward_for)]
pub fn reward_for(status: GameStatus, turn: Turn) -> (reward: i8)
    ensures
        reward == spec_reward_for(status, turn),
{
    match status {
        GameStatus::InProgress => 0,
        GameStatus::Draw => 0,
        GameStatus::BlackWin => if turn == Turn::Black {
            1
        } else {
            -1
        },
        GameStatus::WhiteWin => if turn == Turn::White {
            1
        } else {
            -1
        },
    }
}

/// The free cells of `env`, in ascending order.
pub fn legal_move_list(env: &Environment) -> (moves: Vec<usize>)
    ensures
        forall|a: usize| moves@.contains(a) <==> a < 361 && env.legal_moves[a as int],
        forall|j: int, k: int| 0 <= j < k < moves.len() ==> moves[j] < moves[k],
{
    let mut moves: Vec<usize> = Vec::new();
    let mut index: usize = 0;
    while index < 361
        invariant
            index <= 361,
            forall|a: usize| moves@.contains(a) <==> a < index && env.legal_moves[a as int],
            forall|j: int, k: int| 0 <= j < k < moves.len() ==> moves[j] < moves[k],
        decreases 361 - index,
    {
        if env.legal_moves[index] {
            let ghost earlier = moves@;
            moves.push(index);
            proof {
                assert forall|a: usize| moves@.contains(a) <==> a < index + 1 && env.legal_moves[a as int] by {
                    assert(earlier.contains(a) <==> a < index && env.legal_moves[a as int]);
                    if earlier.contains(a) {
                        let w = choose|w: int| 0 <= w < earlier.len() && earlier[w] == a;
                        assert(moves@[w] == a);
                    }
                    if a == index {
                        assert(moves@[earlier.len() as int] == a);
                    }
                    if moves@.contains(a) {
                        let w = choose|w: int| 0 <= w < moves@.len() && moves@[w] == a;
                        if w < earlier.len() {
                            assert(earlier[w] == a);
                        }
                    }
                }
                assert forall|j: int, k: int| 0 <= j < k < moves.len() implies moves[j] < moves[k] by {
                    if k == earlier.len() {
                        assert(earlier.contains(earlier[j]));
                    }
                }
            }
        }
        index += 1;
    }
    moves
}

/// One move of a game, as it is learned from: the board before it and
/// after it, seen by one player, the cell taken, and what the move was
/// worth to that player.
pub struct Transition {
    pub state: [i8; 361],
    /// The board after the move; nothing where the move ended the game.
    pub next_state: Option<[i8; 361]>,
    pub action: usize,
    pub reward: i8,
}

/// The character that shows cell `index` of a transition: `A` for the cell
/// taken, `-` for an empty one, `O` for a positive and `X` for a negative
/// one.
pub open spec fn spec_mark(state: Seq<i8>, action: int, index: int) -> char {
    if index == action {
        'A'
    } else if state[index] == 0 {
        '-'
    } else if state[index] > 0 {
        'O'
    } else {
        'X'
    }
}

/// The picture of a transition: 19 lines of 19 characters, one for each
/// cell, each line ended by a line feed.
pub open spec fn spec_render(state: Seq<i8>, action: int) -> Seq<char> {
    Seq::new(
        380,
        |j: int|
            if j % 20 == 19 {
                '\n'
            } else {
                spec_mark(state, action, (j / 20) * 19 + j % 20)
            },
    )
}

impl Transition {
    /// Places a stone of the player to move on cell `action` and records
    /// the move as `turn` sees it. Returns the record and how the game
    /// stands.
    pub fn record(env: &mut Environment, turn: Turn, action: usize) -> (made: (Transition, GameStatus))
        requires
            action < 361,
            old(env).legal_move_count > 0,
        ensures
            final(env).follows(*old(env), action as int),
            old(env).wf() && old(env).legal_moves[action as int] ==> final(env).wf(),
            made.1 == status_after(
                final(env).board@,
                action as int,
                old(env).turn,
                final(env).legal_move_count as int,
            ),
            made.0.action == action,
            made.0.reward == spec_reward_for(made.1, turn),
            forall|i: int| 0 <= i < 361 ==> (#[trigger] made.0.state[i]) == old(env).board[i].seen_by(turn),
            made.0.next_state is Some <==> made.1 == GameStatus::InProgress,
            made.0.next_state is Some ==> forall|i: int|
                0 <= i < 361 ==> (#[trigger] made.0.next_state->0[i]) == final(env).board[i].seen_by(turn),
    {
        let mut board = [0i8; 361];
        env.copy_board(turn, &mut board);
        let status = env.place_stone(action);
        let next_board = match status {
            GameStatus::InProgress => {
                let mut next_board = [0i8; 361];
                env.copy_board(turn, &mut next_board);
                Some(next_board)
            },
            _ => None,
        };
        (Transition { state: board, next_state: next_board, action, reward: reward_for(status, turn) }, status)
    }

    /// The picture of this transition.
    pub fn render(&self) -> (text: String)
        ensures
            text@ == spec_render(self.state@, self.action as int),
    {
        let mut text = String::new();
        let mut row: usize = 0;
        proof {
            reveal_strlit("A");
            reveal_strlit("-");
            reveal_strlit("O");
            reveal_strlit("X");
            reveal_strlit("\n");
        }
        while row < 19
            invariant
                row <= 19,
                text@.len() == 20 * row,
                forall|j: int| 0 <= j < 20 * row ==> text@[j] == spec_render(self.state@, self.action as int)[j],
                "A"@ == seq!['A'],
                "-"@ == seq!['-'],
                "O"@ == seq!['O'],
                "X"@ == seq!['X'],
                "\n"@ == seq!['\n'],
            decreases 19 - row,
        {
            let mut col: usize = 0;
            while col < 19
                invariant
                    row < 19,
                    col <= 19,
                    text@.len() == 20 * row + col,
                    forall|j: int|
                        0 <= j < 20 * row + col ==> text@[j] == spec_render(self.state@, self.action as int)[j],
                    "A"@ == seq!['A'],
                    "-"@ == seq!['-'],
                    "O"@ == seq!['O'],
                    "X"@ == seq!['X'],
                decreases 19 - col,
            {
                let index = row * 19 + col;
                let stone = self.state[index];
                let ghost earlier = text@;
                if index == self.action {
                    text.append("A");
                } else if stone == 0 {
                    text.append("-");
                } else if 0 < stone {
                    text.append("O");
                } else {
                    text.append("X");
                }
                proof {
                    let j = 20 * row + col;
                    assert(j % 20 == col && j / 20 == row) by (nonlinear_arith)
                        requires
                            j == 20 * row + col,
                            0 <= col < 19,
                            0 <= row,
                    ;
                    assert(text@[j] == spec_mark(self.state@, self.action as int, index as int));
                    assert forall|i: int| 0 <= i < j implies text@[i] == earlier[i] by {}
                }
                col += 1;
            }
            let ghost earlier = text@;
            text.append("\n");
            proof {
                let j = 20 * row + 19;
                assert(j % 20 == 19) by (nonlinear_arith)
                    requires
                        j == 20 * row + 19,
                        0 <= row,
                ;
                assert forall|i: int| 0 <= i < j implies text@[i] == earlier[i] by {}
            }
            row += 1;
        }
        assert(text@ =~= spec_render(self.state@, self.action as int));
        text
    }
}

/// The moves that training draws from: the newest `capacity` of those
/// recorded, oldest first.
pub struct ReplayMemory {
    pub items: VecDeque<Transition>,
    pub capacity: usize,
}

impl ReplayMemory {
    /// An empty memory for `capacity` moves.
    pub fn new(capacity: usize) -> (memory: ReplayMemory)
        ensures
            memory.items@.len() == 0,
            memory.capacity == capacity,
    {
        ReplayMemory { items: VecDeque::with_capacity(capacity), capacity }
    }

    /// The number of moves held.
    pub fn len(&self) -> (len: usize)
        ensures
            len == self.items@.len(),
    {
        self.items.len()
    }

    /// Records `transition` as the newest move; where the memory is full,
    /// the oldest move makes room for it.
    pub fn push(&mut self, transition: Transition)
        ensures
            final(self).capacity == old(self).capacity,
            final(self).items@ == if old(self).items@.len() == old(self).capacity && old(self).capacity > 0 {
                old(self).items@.skip(1).push(transition)
            } else {
                old(self).items@.push(transition)
            },
    {
        if self.items.len() == self.capacity {
            self.items.pop_front();
        }
        self.items.push_back(transition);
    }
}

/// How the games of a run of self-play ended.
pub struct Tally {
    pub draw: usize,
    pub black_win: usize,
    pub white_win: usize,
}

/// The number of `items` that ended a game.
pub open spec fn endings(items: Seq<Transition>) -> nat
    decreases items.len(),
{
    if items.len() == 0 {
        0
    } else {
        endings(items.drop_last()) + if items.last().next_state is None {
            1nat
        } else {
            0nat
        }
    }
}

/// Whether `transition` records a move as its mover sees it: the cell taken
/// was free, a game that goes on has the mover's stone on it and is worth
/// nothing yet, and a game that ended was not lost by the move.
pub open spec fn well_recorded(transition: Transition) -> bool {
    &&& transition.action < 361
    &&& transition.state[transition.action as int] == 0
    &&& transition.next_state is Some ==> transition.reward == 0 && transition.next_state->0@
        == transition.state@.update(transition.action as int, 1i8)
    &&& transition.next_state is None ==> transition.reward >= 0
}

/// Plays games of random moves from the empty board, one after another,
/// and records every move as its mover sees it, until `memory` holds
/// `target` moves. Returns how the finished games ended.
pub fn warm_up(memory: &mut ReplayMemory, target: usize) -> (tally: Tally)
    requires
        old(memory).items@.len() < target,
    ensures
        final(memory).capacity == old(memory).capacity,
        final(memory).items@.len() == target,
        final(memory).items@.take(old(memory).items@.len() as int) == old(memory).items@,
        forall|k: int| old(memory).items@.len() <= k < target ==> well_recorded(#[trigger] final(memory).items@[k]),
        tally.draw + tally.black_win + tally.white_win + endings(old(memory).items@) == endings(
            final(memory).items@,
        ),
{
    let mut generator = thread_generator();
    let mut tally = Tally { draw: 0, black_win: 0, white_win: 0 };
    let ghost start = memory.items@;
    proof {
        assert(memory.items@.take(start.len() as int) =~= start);
        lemma_endings_bound(start);
    }
    loop
        invariant
            memory.capacity == old(memory).capacity,
            start == old(memory).items@,
            start.len() <= memory.items@.len() < target,
            memory.items@.take(start.len() as int) == start,
            forall|k: int| start.len() <= k < memory.items@.len() ==> well_recorded(#[trigger] memory.items@[k]),
            tally.draw + tally.black_win + tally.white_win + endings(start) == endings(memory.items@),
        decreases target - memory.items@.len(),
    {
        let mut env = Environment::new();
        let mut turn = env.turn;
        let mut playing = true;
        let ghost entry = memory.items@.len();
        while playing
            invariant
                memory.capacity == old(memory).capacity,
                start == old(memory).items@,
                start.len() <= entry <= memory.items@.len() < target,
                !playing ==> entry < memory.items@.len(),
                memory.items@.take(start.len() as int) == start,
                forall|k: int| start.len() <= k < memory.items@.len() ==> well_recorded(#[trigger] memory.items@[k]),
                turn == env.turn,
                tally.draw + tally.black_win + tally.white_win + endings(start) == endings(memory.items@),
                env.wf(),
                playing ==> env.legal_move_count > 0,
            decreases env.legal_move_count + if playing { 1int } else { 0int },
        {
            let legal_moves = legal_move_list(&env);
            proof {
                lemma_count_true_zero(env.legal_moves@);
                let free = choose|i: int| 0 <= i < 361 && env.legal_moves@[i];
                assert(legal_moves@.contains(free as usize));
            }
            let random_move = legal_moves[index_below(legal_moves.len(), &mut generator)];
            assert(legal_moves@.contains(random_move));
            let ghost board = env.board@;
            let (transition, status) = Transition::record(&mut env, turn, random_move);
            proof {
                lemma_endings_bound(memory.items@);
                assert(board[random_move as int] == Stone::Empty);
                assert(transition.state[random_move as int] == board[random_move as int].seen_by(turn));
                if transition.next_state is Some {
                    let next = transition.next_state->0;
                    assert(next@ =~= transition.state@.update(random_move as int, 1i8)) by {
                        assert forall|i: int| 0 <= i < 361 implies next@[i] == transition.state@.update(
                            random_move as int,
                            1i8,
                        )[i] by {
                            assert(next[i] == env.board[i].seen_by(turn));
                            assert(transition.state[i] == board[i].seen_by(turn));
                        }
                    }
                }
                assert(well_recorded(transition));
            }
            match status {
                GameStatus::InProgress => {},
                GameStatus::Draw => {
                    tally.draw += 1;
                },
                GameStatus::BlackWin => {
                    tally.black_win += 1;
                },
                GameStatus::WhiteWin => {
                    tally.white_win += 1;
                },
            }
            let has_next_board = transition.next_state.is_some();
            let ghost earlier = memory.items@;
            memory.items.push_back(transition);
            proof {
                assert(memory.items@.drop_last() =~= earlier);
                assert(memory.items@.take(start.len() as int) =~= earlier.take(start.len() as int));
            }
            turn = env.turn;
            if memory.items.len() == target {
                return tally;
            }
            if !has_next_board {
                playing = false;
            }
        }
    }
}

/// No more moves ended a game than were recorded.
pub proof fn lemma_endings_bound(items: Seq<Transition>)
    ensures
        endings(items) <= items.len(),
    decreases items.len(),
{
    if items.len() > 0 {
        lemma_endings_bound(items.drop_last());
    }
}

} // verus!
