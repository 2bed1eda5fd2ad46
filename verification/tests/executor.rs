use std::cell::{Cell, RefCell};

use alpha_zero::environment::{Environment, GameStatus, Turn};
use alpha_zero::parallel_mcts_executor::{Evaluation, ParallelMCTSExecutor};
use alpha_zero::score::ONE;
use alpha_zero::state::BoardState;
use alpha_zero::tree::SearchTree;
use rand::rngs::StdRng;
use rand::seq::SliceRandom;
use rand::SeedableRng;

fn fresh_tree() -> SearchTree {
    SearchTree::new(BoardState::new(Environment::new(), GameStatus::InProgress))
}

/// A board on which only cell 4 is free, and Black, who is to move, wins
/// there with a line of five along the top row.
fn one_cell_left() -> Environment {
    let mut env = Environment::new();
    for index in 0..361 {
        if index == 4 {
            continue;
        }
        let stone = if index < 4 {
            alpha_zero::environment::Stone::Black
        } else if index % 3 == 0 {
            alpha_zero::environment::Stone::Black
        } else {
            alpha_zero::environment::Stone::White
        };
        env.board[index] = stone;
        env.legal_moves[index] = false;
    }
    // Cell 5 must not lengthen the line.
    env.board[5] = alpha_zero::environment::Stone::White;
    env.legal_move_count = 1;
    env.turn = Turn::Black;
    env
}

fn uniform_answer(slots: usize, value: i32) -> Evaluation {
    Evaluation { policies: vec![vec![ONE / 361; 361]; slots], values: vec![value; slots] }
}

fn first_candidate(candidates: &Vec<usize>) -> Option<usize> {
    candidates.first().copied()
}

#[test]
fn a_round_without_requests_does_not_ask_the_evaluator() {
    let executor = ParallelMCTSExecutor::new();
    let mut trees = vec![SearchTree::new(BoardState::new(Environment::new(), GameStatus::Draw))];
    let calls = Cell::new(0usize);
    let evaluator = |inputs: &Vec<Vec<u8>>| -> Result<Evaluation, String> {
        calls.set(calls.get() + 1);
        Ok(uniform_answer(inputs.len(), 0))
    };
    let result = executor.execute_with(6, 2, &first_candidate, &evaluator, &mut trees);
    assert_eq!(result, Ok(()));
    assert_eq!(calls.get(), 0);
    // Three rounds of two simulations, each a terminal shortcut from the root.
    assert_eq!(trees[0].nodes.len(), 1);
    assert_eq!(trees[0].nodes[0].visit_count, 6);
    assert_eq!(trees[0].nodes[0].value_sum, 0);
    assert_eq!(trees[0].nodes[0].virtual_loss, 0);
}

#[test]
fn a_winning_last_cell_is_backed_up_without_the_evaluator() {
    let executor = ParallelMCTSExecutor::new();
    let mut trees = vec![SearchTree::new(BoardState::new(one_cell_left(), GameStatus::InProgress))];
    let calls = Cell::new(0usize);
    let evaluator = |inputs: &Vec<Vec<u8>>| -> Result<Evaluation, String> {
        calls.set(calls.get() + 1);
        // An estimate that must not be used for a finished game.
        Ok(uniform_answer(inputs.len(), -(ONE as i32)))
    };

    // First round: the only move is expanded; the game is over there.
    assert_eq!(executor.round(&mut trees, 1, &first_candidate, &evaluator), Ok(()));
    assert_eq!(calls.get(), 1);
    let tree = &trees[0];
    assert_eq!(tree.nodes.len(), 2);
    assert_eq!(tree.nodes[1].action, Some(4));
    assert_eq!(tree.nodes[1].state.status, GameStatus::BlackWin);
    assert_eq!(tree.nodes[1].state.z, ONE as i32);
    assert_eq!(tree.nodes[1].visit_count, 1);
    assert_eq!(tree.nodes[1].value_sum, ONE as i128);
    assert_eq!(tree.nodes[0].visit_count, 1);
    assert_eq!(tree.nodes[0].value_sum, -(ONE as i128));

    // Second round: selection reaches the finished game; no evaluator call.
    assert_eq!(executor.round(&mut trees, 1, &first_candidate, &evaluator), Ok(()));
    assert_eq!(calls.get(), 1);
    let tree = &trees[0];
    assert_eq!(tree.nodes.len(), 2);
    assert!(tree.nodes[1].children.is_empty());
    assert_eq!(tree.nodes[1].visit_count, 2);
    assert_eq!(tree.nodes[1].value_sum, 2 * ONE as i128);
    assert_eq!(tree.nodes[0].visit_count, 2);
    assert_eq!(tree.nodes[0].value_sum, -2 * ONE as i128);
    assert_eq!(tree.nodes[0].virtual_loss, 0);
    assert_eq!(tree.nodes[1].virtual_loss, 0);
    assert!(tree.pending.is_empty());
    assert!(tree.selected.is_empty());
}

#[test]
fn two_expansions_of_one_move_make_one_child() {
    let mut tree = fresh_tree();
    let first = tree.select_leaf(ONE);
    let second = tree.select_leaf(ONE);
    assert_eq!((first, second), (0, 0));
    assert_eq!(tree.nodes[0].virtual_loss, 2);
    assert_eq!(tree.selected, vec![0, 0]);

    let winner = tree.settle(0, Some(7)).expect("the first attempt makes the child");
    assert_eq!(winner.node, 1);
    let loser = tree.settle(0, Some(7));
    assert_eq!(loser, None);

    assert_eq!(tree.nodes.len(), 2);
    assert_eq!(tree.nodes[0].children, vec![1]);
    assert!(tree.selected.is_empty());
    assert_eq!(tree.pending, vec![winner]);
    // The loser gave its virtual loss back; the winner's child keeps its own.
    assert_eq!(tree.nodes[0].virtual_loss, 1);
    assert_eq!(tree.nodes[1].virtual_loss, 1);
    assert_eq!(tree.nodes[1].visit_count, 0);
    assert_eq!(tree.nodes[1].value_sum, 0);
    assert_eq!(tree.nodes[1].prior, ONE / 361);
    assert_eq!(tree.nodes[1].action, Some(7));
}

#[test]
fn a_leaf_without_an_open_move_is_given_up() {
    let mut tree = SearchTree::new(BoardState::new(one_cell_left(), GameStatus::InProgress));
    assert_eq!(tree.select_leaf(ONE), 0);
    assert_eq!(tree.select_leaf(ONE), 0);
    assert_eq!(tree.candidates(0), vec![4]);
    assert!(tree.settle(0, Some(4)).is_some());
    // The second simulation finds every move of its leaf taken.
    assert_eq!(tree.candidates(0), Vec::<usize>::new());
    assert_eq!(tree.settle(0, None), None);
    assert_eq!(tree.nodes.len(), 2);
    assert_eq!(tree.nodes[0].virtual_loss, 1);
    assert_eq!(tree.nodes[0].visit_count, 0);
}

#[test]
fn four_requests_of_two_trees_get_their_own_answers() {
    let executor = ParallelMCTSExecutor::new();
    let mut trees = vec![fresh_tree(), fresh_tree()];
    let picks = RefCell::new(vec![10usize, 20, 30, 40].into_iter());
    let sampler = |candidates: &Vec<usize>| -> Option<usize> {
        let action = picks.borrow_mut().next().expect("four picks");
        assert!(candidates.contains(&action));
        Some(action)
    };
    let seen = RefCell::new(Vec::<Vec<u8>>::new());
    let evaluator = |inputs: &Vec<Vec<u8>>| -> Result<Evaluation, String> {
        *seen.borrow_mut() = inputs.clone();
        let policies = (0..inputs.len()).map(|slot| vec![1000 * (slot as u32 + 1); 361]).collect();
        let values = (0..inputs.len()).map(|slot| 100 * (slot as i32 + 1)).collect();
        Ok(Evaluation { policies, values })
    };
    assert_eq!(executor.round(&mut trees, 2, &sampler, &evaluator), Ok(()));

    let inputs = seen.borrow();
    assert_eq!(inputs.len(), 4);
    // Place 0 shows the board after Black took cell 10, seen by Black.
    assert_eq!(inputs[0].len(), 722);
    assert_eq!((inputs[0][20], inputs[0][21]), (1, 0));
    assert_eq!(inputs[0].iter().map(|v| *v as usize).sum::<usize>(), 1);
    // Place 1 shows cell 10 of Black and cell 20 of White, seen by White.
    assert_eq!((inputs[1][20], inputs[1][21]), (0, 1));
    assert_eq!((inputs[1][40], inputs[1][41]), (1, 0));
    assert_eq!((inputs[2][60], inputs[2][61]), (1, 0));
    assert_eq!((inputs[3][80], inputs[3][81]), (1, 0));

    // First tree: the root's child by 10 (place 0) and that child's child by 20 (place 1).
    let tree = &trees[0];
    assert_eq!(tree.nodes.len(), 3);
    assert_eq!(tree.nodes[1].action, Some(10));
    assert_eq!(tree.nodes[2].action, Some(20));
    assert_eq!(tree.nodes[2].parent, Some(1));
    assert_eq!(tree.nodes[1].state.policy[0], 1000);
    assert_eq!(tree.nodes[2].state.policy[0], 2000);
    // The child of node 1 has the probability that node 1's answer gives its move.
    assert_eq!(tree.nodes[2].prior, 1000);
    // Node 1's own prior comes from the root, which was not evaluated.
    assert_eq!(tree.nodes[1].prior, ONE / 361);
    assert_eq!(tree.nodes[0].state.policy[0], ONE / 361);
    assert_eq!(tree.nodes[2].visit_count, 1);
    assert_eq!(tree.nodes[2].value_sum, 200);
    assert_eq!(tree.nodes[1].visit_count, 2);
    assert_eq!(tree.nodes[1].value_sum, 100 - 200);
    assert_eq!(tree.nodes[0].visit_count, 2);
    assert_eq!(tree.nodes[0].value_sum, -100 + 200);

    // Second tree: places 2 and 3.
    let tree = &trees[1];
    assert_eq!(tree.nodes.len(), 3);
    assert_eq!(tree.nodes[1].action, Some(30));
    assert_eq!(tree.nodes[2].action, Some(40));
    assert_eq!(tree.nodes[1].state.policy[360], 3000);
    assert_eq!(tree.nodes[2].state.policy[360], 4000);
    assert_eq!(tree.nodes[2].prior, 3000);
    assert_eq!(tree.nodes[2].value_sum, 400);
    assert_eq!(tree.nodes[1].value_sum, 300 - 400);
    assert_eq!(tree.nodes[0].value_sum, -300 + 400);

    for tree in trees.iter() {
        assert!(tree.pending.is_empty());
        assert!(tree.selected.is_empty());
        for node in tree.nodes.iter() {
            assert_eq!(node.virtual_loss, 0);
        }
    }
}

#[test]
fn a_failing_evaluator_ends_the_run() {
    let executor = ParallelMCTSExecutor::new();
    let mut trees = vec![fresh_tree()];
    let calls = Cell::new(0usize);
    let evaluator = |inputs: &Vec<Vec<u8>>| -> Result<Evaluation, String> {
        calls.set(calls.get() + 1);
        if calls.get() == 2 {
            Err("no session".to_string())
        } else {
            Ok(uniform_answer(inputs.len(), 0))
        }
    };
    let result = executor.execute_with(10, 1, &first_candidate, &evaluator, &mut trees);
    assert_eq!(result, Err("no session".to_string()));
    assert_eq!(calls.get(), 2);
    // The first round is complete; the second left its node waiting.
    let tree = &trees[0];
    assert_eq!(tree.nodes.len(), 3);
    assert_eq!(tree.nodes[0].visit_count, 1);
    assert_eq!(tree.pending.len(), 1);
    assert_eq!(tree.pending[0].node, 2);
    assert_eq!(tree.nodes[2].virtual_loss, 1);
    assert_eq!(tree.nodes[0].virtual_loss, 1);
}

fn seeded_run(seed: u64) -> Vec<(Option<usize>, Option<usize>, u64, i128, u32)> {
    let executor = ParallelMCTSExecutor::new();
    let mut trees = vec![fresh_tree()];
    let generator = RefCell::new(StdRng::seed_from_u64(seed));
    let sampler = |candidates: &Vec<usize>| -> Option<usize> {
        candidates.choose(&mut *generator.borrow_mut()).copied()
    };
    let evaluator = |inputs: &Vec<Vec<u8>>| -> Result<Evaluation, String> {
        let policies = inputs
            .iter()
            .map(|planes| (0..361).map(|a| (planes[2 * a] as u32 + 2 * planes[2 * a + 1] as u32 + 1) * 1000).collect())
            .collect();
        let values = inputs.iter().map(|planes| planes.iter().map(|v| *v as i32).sum::<i32>() * 1000).collect();
        Ok(Evaluation { policies, values })
    };
    assert_eq!(executor.execute_with(24, 3, &sampler, &evaluator, &mut trees), Ok(()));
    trees[0].nodes.iter().map(|n| (n.parent, n.action, n.visit_count, n.value_sum, n.prior)).collect()
}

#[test]
fn a_seeded_run_is_reproducible() {
    let first = seeded_run(7);
    let second = seeded_run(7);
    assert_eq!(first, second);
    assert_eq!(first.len(), 25);
    assert_eq!(first[0].2, 24);
    let other = seeded_run(8);
    assert_eq!(other.len(), 25);
    assert_ne!(first, other);
}

#[test]
fn execute_with_the_threads_generator_keeps_the_counts() {
    let executor = ParallelMCTSExecutor::new();
    assert_eq!(executor.c_puct, ParallelMCTSExecutor::C_PUCT);
    let mut trees = vec![fresh_tree(), fresh_tree(), fresh_tree()];
    let evaluator =
        |inputs: &Vec<Vec<u8>>| -> Result<Evaluation, String> { Ok(uniform_answer(inputs.len(), 5)) };
    // A budget of 7 in rounds of 2 takes four rounds: eight simulations in each tree.
    assert_eq!(executor.execute(7, 2, &evaluator, &mut trees), Ok(()));
    for tree in trees.iter() {
        assert_eq!(tree.nodes.len(), 9);
        assert_eq!(tree.nodes[0].visit_count, 8);
        assert!(tree.pending.is_empty());
        for (index, node) in tree.nodes.iter().enumerate() {
            assert_eq!(node.virtual_loss, 0);
            let mut actions: Vec<usize> =
                node.children.iter().map(|c| tree.nodes[*c].action.expect("a move")).collect();
            let before = actions.len();
            actions.sort();
            actions.dedup();
            assert_eq!(actions.len(), before);
            for child in node.children.iter() {
                assert_eq!(tree.nodes[*child].parent, Some(index));
                assert!(tree.nodes[*child].visit_count <= node.visit_count);
            }
        }
    }
}

#[test]
fn no_budget_means_no_round() {
    let executor = ParallelMCTSExecutor::new();
    let mut trees = vec![fresh_tree()];
    let evaluator =
        |inputs: &Vec<Vec<u8>>| -> Result<Evaluation, String> { Ok(uniform_answer(inputs.len(), 5)) };
    assert_eq!(executor.execute(0, 0, &evaluator, &mut trees), Ok(()));
    assert_eq!(trees[0].nodes.len(), 1);
    assert_eq!(trees[0].nodes[0].visit_count, 0);
}
