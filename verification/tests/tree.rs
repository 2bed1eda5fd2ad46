use alpha_zero::environment::{Environment, GameStatus};
use alpha_zero::score::ONE;
use alpha_zero::state::BoardState;
use alpha_zero::tree::SearchTree;

fn fresh_tree() -> SearchTree {
    SearchTree::new(BoardState::new(Environment::new(), GameStatus::InProgress))
}

#[test]
fn a_new_tree_has_only_its_root() {
    let tree = fresh_tree();
    assert_eq!(tree.nodes.len(), 1);
    assert_eq!(tree.nodes[0].visit_count, 0);
    assert_eq!(tree.nodes[0].value_sum, 0);
    assert_eq!(tree.nodes[0].virtual_loss, 0);
    assert_eq!(tree.nodes[0].prior, ONE);
    assert_eq!(tree.nodes[0].action, None);
    assert_eq!(tree.nodes[0].parent, None);
    assert!(tree.nodes[0].children.is_empty());
}

#[test]
fn simulate_expands_the_sampled_move() {
    let mut tree = fresh_tree();
    let request = tree.simulate(ONE, &|candidates: &Vec<usize>| {
        assert_eq!(candidates.len(), 361);
        Some(candidates[42])
    });
    let request = request.expect("a request");
    assert_eq!(request.node, 1);
    assert_eq!(request.terminal_reward, None);
    assert_eq!(tree.nodes.len(), 2);
    assert_eq!(tree.nodes[0].children, vec![1]);
    assert_eq!(tree.nodes[1].action, Some(42));
    assert_eq!(tree.nodes[1].parent, Some(0));
    assert_eq!(tree.nodes[1].prior, ONE / 361);
    assert_eq!(tree.nodes[0].virtual_loss, 1);
    assert_eq!(tree.nodes[1].virtual_loss, 1);
    assert!(tree.selected.is_empty());
    assert_eq!(tree.pending, vec![request]);
}

#[test]
fn propagate_turns_the_sign_at_each_step() {
    let mut tree = fresh_tree();
    assert_eq!(tree.expand(0, 5), Some(1));
    assert_eq!(tree.expand(1, 6), Some(2));
    assert_eq!(tree.expand(0, 7), Some(3));
    tree.propagate(2, 300);
    assert_eq!(
        tree.nodes.iter().map(|n| (n.visit_count, n.value_sum)).collect::<Vec<_>>(),
        vec![(1, 300), (1, -300), (1, 300), (0, 0)]
    );
    tree.propagate(3, -50);
    tree.propagate(0, 4);
    assert_eq!(
        tree.nodes.iter().map(|n| (n.visit_count, n.value_sum)).collect::<Vec<_>>(),
        vec![(3, 354), (1, -300), (1, 300), (1, -50)]
    );
}

#[test]
fn expand_makes_each_child_once() {
    let mut tree = fresh_tree();
    assert_eq!(tree.expand(0, 5), Some(1));
    assert_eq!(tree.expand(0, 5), None);
    assert_eq!(tree.expand(0, 361), None);
    assert_eq!(tree.expand(0, 9), Some(2));
    // Cell 5 is taken on the board of node 1.
    assert_eq!(tree.expand(1, 5), None);
    assert_eq!(tree.nodes.len(), 3);
    assert_eq!(tree.nodes[0].children, vec![1, 2]);
    assert_eq!(tree.nodes[1].state.env.turn, alpha_zero::environment::Turn::White);
    assert_eq!(tree.nodes[1].state.env.legal_move_count, 360);
    assert_eq!(tree.nodes[1].state.policy[4], ONE / 360);
    assert_eq!(tree.nodes[1].state.policy[5], 0);
    assert_eq!(tree.candidates(0).len(), 359);
    assert!(!tree.candidates(0).contains(&5));
    assert!(!tree.candidates(0).contains(&9));
    assert_eq!(tree.candidates(1).len(), 360);
}

#[test]
fn a_finished_game_gets_no_child() {
    let mut tree = SearchTree::new(BoardState::new(Environment::new(), GameStatus::BlackWin));
    assert_eq!(tree.nodes[0].state.z, ONE as i32);
    assert_eq!(tree.expand(0, 5), None);
    assert_eq!(tree.select_leaf(ONE), 0);
    assert_eq!(tree.settle(0, Some(5)), None);
    assert_eq!(tree.nodes.len(), 1);
    assert_eq!(tree.nodes[0].visit_count, 1);
    assert_eq!(tree.nodes[0].value_sum, ONE as i128);
    assert_eq!(tree.nodes[0].virtual_loss, 0);
}

#[test]
fn selection_prefers_the_first_of_equal_children() {
    let mut tree = fresh_tree();
    assert_eq!(tree.expand(0, 5), Some(1));
    assert_eq!(tree.expand(0, 6), Some(2));
    assert_eq!(tree.expand(0, 7), Some(3));
    assert_eq!(tree.best_child(0, ONE), 0);
    assert_eq!(tree.select_leaf(ONE), 1);
    assert_eq!(tree.settle(1, None), None);
    // A visit with a good outcome for the second child puts it first.
    tree.propagate(2, ONE as i32);
    assert_eq!(tree.best_child(0, ONE), 1);
    assert_eq!(tree.select_leaf(ONE), 2);
    assert!(tree.is_selected(2));
    assert!(!tree.is_selected(1));
    assert_eq!(tree.nodes[0].virtual_loss, 1);
    assert_eq!(tree.nodes[2].virtual_loss, 1);
    assert_eq!(tree.nodes[1].virtual_loss, 0);
}

#[test]
fn complete_gives_children_their_priors() {
    let mut tree = fresh_tree();
    let first = tree.simulate(ONE, &|c: &Vec<usize>| Some(c[3])).expect("a request");
    let second = tree.simulate(ONE, &|c: &Vec<usize>| Some(c[0])).expect("a request");
    assert_eq!((first.node, second.node), (1, 2));
    assert_eq!(tree.nodes[2].parent, Some(1));
    let mut policy = vec![0u32; 361];
    policy[0] = 777;
    assert_eq!(tree.complete(&policy, 40), first);
    assert_eq!(tree.nodes[1].state.policy[0], 777);
    assert_eq!(tree.nodes[2].prior, 777);
    assert_eq!(tree.nodes[1].prior, ONE / 361);
    assert_eq!((tree.nodes[1].visit_count, tree.nodes[1].value_sum), (1, 40));
    assert_eq!((tree.nodes[0].visit_count, tree.nodes[0].value_sum), (1, -40));
    assert_eq!(tree.nodes[0].virtual_loss, 1);
    assert_eq!(tree.nodes[1].virtual_loss, 1);
    assert_eq!(tree.nodes[2].virtual_loss, 1);
    assert_eq!(tree.pending, vec![second]);
    assert!(tree.has_room(10));
    assert!(!tree.has_room(usize::MAX));
}
