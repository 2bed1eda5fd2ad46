//! Reproducibility: what a step does to a tree is a function of the tree
//! and of what the sampler and the evaluator returned.

use vstd::prelude::*;
use crate::expand::{can_expand, grew, is_candidate, taken, taken_among};
use crate::laws::lemma_has_first_max;
use crate::parallel_mcts_executor::{
    all_wf, applied, asked, batch_len, collected, lemma_batch_len, ran, round_done, shows, spec_batch,
    tree_inputs, Evaluation,
};
use crate::round::{completed, completed_times, simulated_times};
use crate::select::{best_place, child_scores, leaf_from};
use crate::simulate::{root_leaf, sampled, selects, settles, simulated};
use crate::tree::{child, linked, parents_of, Node, Request, SearchTree};

verus! {

/// Whether two sequences of nodes hold the same: node by node the same
/// statistics, the same links and the same position.
pub open spec fn alike(a: Seq<Node>, b: Seq<Node>) -> bool {
    &&& a.len() == b.len()
    &&& forall|i: int|
        0 <= i < a.len() ==> {
            &&& (#[trigger] a[i]).visit_count == b[i].visit_count
            &&& a[i].value_sum == b[i].value_sum
            &&& a[i].prior == b[i].prior
            &&& a[i].virtual_loss == b[i].virtual_loss
            &&& a[i].action == b[i].action
            &&& a[i].parent == b[i].parent
            &&& a[i].children@ == b[i].children@
            &&& a[i].state.env.turn == b[i].state.env.turn
            &&& a[i].state.env.board@ == b[i].state.env.board@
            &&& a[i].state.env.legal_moves@ == b[i].state.env.legal_moves@
            &&& a[i].state.env.legal_move_count == b[i].state.env.legal_move_count
            &&& a[i].state.status == b[i].state.status
            &&& a[i].state.policy@ == b[i].state.policy@
            &&& a[i].state.z == b[i].state.z
        }
}

/// Whether two trees hold the same: like nodes, and the same selected
/// leaves, pending requests and passes.
pub open spec fn same_tree(a: SearchTree, b: SearchTree) -> bool {
    &&& alike(a.nodes@, b.nodes@)
    &&& a.selected@ == b.selected@
    &&& a.pending@ == b.pending@
    &&& a.passes@ == b.passes@
}

/// Like trees score the children of a node alike, and selection reaches
/// the same leaf in them.
pub proof fn lemma_leaf_alike(a: Seq<Node>, b: Seq<Node>, i: int, c: int)
    requires
        alike(a, b),
        linked(a),
        0 <= i < a.len(),
    ensures
        child_scores(a, i, c) == child_scores(b, i, c),
        leaf_from(a, i, c) == leaf_from(b, i, c),
    decreases a.len() - i,
{
    assert(a[i].children@ == b[i].children@);
    assert(child_scores(a, i, c) =~= child_scores(b, i, c)) by {
        assert forall|k: int| 0 <= k < a[i].children@.len() implies child_scores(a, i, c)[k] == child_scores(
            b,
            i,
            c,
        )[k] by {
            let below = child(a, i, k);
            assert(below == child(b, i, k));
            assert(i < below < a.len());
            assert(a[below].visit_count == b[below].visit_count);
        }
    }
    if a[i].children.len() > 0 {
        lemma_has_first_max(child_scores(a, i, c));
        let place = best_place(a, i, c);
        assert(place == best_place(b, i, c));
        let next = child(a, i, place);
        assert(next == child(b, i, place));
        assert(i < next < a.len());
        lemma_leaf_alike(a, b, next, c);
    }
}

/// Like trees have the same links.
pub proof fn lemma_parents_alike(a: Seq<Node>, b: Seq<Node>)
    requires
        alike(a, b),
    ensures
        parents_of(a) == parents_of(b),
{
    assert(parents_of(a) =~= parents_of(b)) by {
        assert forall|i: int| 0 <= i < a.len() implies parents_of(a)[i] == parents_of(b)[i] by {
            assert(a[i].parent == b[i].parent);
        }
    }
}

/// In like trees the same moves are open at a node.
pub proof fn lemma_candidates_alike(a: Seq<Node>, b: Seq<Node>, i: int, action: usize)
    requires
        alike(a, b),
        linked(a),
        0 <= i < a.len(),
    ensures
        taken(a, i, action) == taken(b, i, action),
        is_candidate(a, i, action) == is_candidate(b, i, action),
        can_expand(a, i, action) == can_expand(b, i, action),
{
    let count = a[i].children.len() as int;
    assert(a[i].children@ == b[i].children@);
    assert(a[i].state.env.legal_moves@ == b[i].state.env.legal_moves@);
    if taken_among(a, i, action, count) {
        let k = choose|k: int| 0 <= k < count && a[#[trigger] child(a, i, k)].action == Some(action);
        assert(child(b, i, k) == child(a, i, k));
        assert(i < child(a, i, k) < a.len());
        assert(a[child(a, i, k)].action == b[child(a, i, k)].action);
        assert(taken_among(b, i, action, count));
    }
    if taken_among(b, i, action, count) {
        let k = choose|k: int| 0 <= k < count && b[#[trigger] child(b, i, k)].action == Some(action);
        assert(child(b, i, k) == child(a, i, k));
        assert(i < child(a, i, k) < a.len());
        assert(a[child(a, i, k)].action == b[child(a, i, k)].action);
        assert(taken_among(a, i, action, count));
    }
    if action < 361 {
        assert(a[i].state.env.legal_moves[action as int] == a[i].state.env.legal_moves@[action as int]);
        assert(b[i].state.env.legal_moves[action as int] == b[i].state.env.legal_moves@[action as int]);
    }
}

/// Selection is reproducible: in like trees it reaches the same leaf and
/// leaves like trees.
pub proof fn lemma_selection_is_reproducible(
    first: SearchTree,
    second: SearchTree,
    first_after: SearchTree,
    second_after: SearchTree,
    first_leaf: usize,
    second_leaf: usize,
    c: int,
)
    requires
        first.wf(),
        same_tree(first, second),
        selects(first, first_after, first_leaf, c),
        selects(second, second_after, second_leaf, c),
    ensures
        first_leaf == second_leaf,
        same_tree(first_after, second_after),
{
    lemma_leaf_alike(first.nodes@, second.nodes@, 0, c);
    lemma_parents_alike(first.nodes@, second.nodes@);
    assert forall|i: int| 0 <= i < first_after.nodes.len() implies {
        &&& (#[trigger] first_after.nodes[i]).virtual_loss == second_after.nodes[i].virtual_loss
        &&& first_after.nodes[i].visit_count == second_after.nodes[i].visit_count
        &&& first_after.nodes[i].children@ == second_after.nodes[i].children@
        &&& first_after.nodes[i].state.policy@ == second_after.nodes[i].state.policy@
    } by {
        assert(first.nodes[i].visit_count == second.nodes[i].visit_count);
        assert(second_after.nodes[i].state == second.nodes[i].state);
    }
}

/// Settling is reproducible: in like trees, for the same leaf and the same
/// sampled move, it returns the same request and leaves like trees.
pub proof fn lemma_settling_is_reproducible(
    first: SearchTree,
    second: SearchTree,
    first_after: SearchTree,
    second_after: SearchTree,
    leaf: usize,
    action: Option<usize>,
    first_request: Option<Request>,
    second_request: Option<Request>,
)
    requires
        linked(first.nodes@),
        same_tree(first, second),
        leaf < first.nodes.len(),
        settles(first, first_after, leaf, action, first_request),
        settles(second, second_after, leaf, action, second_request),
    ensures
        first_request == second_request,
        same_tree(first_after, second_after),
{
    let a = first.nodes@;
    let b = second.nodes@;
    let x = first_after.nodes@;
    let y = second_after.nodes@;
    lemma_parents_alike(a, b);
    assert(a[leaf as int].state.status == b[leaf as int].state.status);
    assert(a[leaf as int].state.z == b[leaf as int].state.z);
    if action is Some {
        lemma_candidates_alike(a, b, leaf as int, action->0);
    }
    if !a[leaf as int].state.spec_is_terminal() && action is Some && can_expand(a, leaf as int, action->0) {
        let made = a.len() as int;
        assert(grew(a, x, leaf as int, action->0, 1));
        assert(grew(b, y, leaf as int, action->0, 1));
        assert(a[leaf as int].state.policy@ == b[leaf as int].state.policy@);
        assert(a[leaf as int].state.policy[action->0 as int] == a[leaf as int].state.policy@[action->0 as int]);
        assert(b[leaf as int].state.policy[action->0 as int] == b[leaf as int].state.policy@[action->0 as int]);
        assert(a[leaf as int].state.env.board@ == b[leaf as int].state.env.board@);
        assert(x[made].state.env.board@ == y[made].state.env.board@);
        assert(x[made].children@ =~= y[made].children@);
        assert forall|i: int| 0 <= i < x.len() implies {
            &&& (#[trigger] x[i]).visit_count == y[i].visit_count
            &&& x[i].value_sum == y[i].value_sum
            &&& x[i].prior == y[i].prior
            &&& x[i].virtual_loss == y[i].virtual_loss
            &&& x[i].action == y[i].action
            &&& x[i].parent == y[i].parent
            &&& x[i].children@ == y[i].children@
            &&& x[i].state.env.turn == y[i].state.env.turn
            &&& x[i].state.env.board@ == y[i].state.env.board@
            &&& x[i].state.env.legal_moves@ == y[i].state.env.legal_moves@
            &&& x[i].state.env.legal_move_count == y[i].state.env.legal_move_count
            &&& x[i].state.status == y[i].state.status
            &&& x[i].state.policy@ == y[i].state.policy@
            &&& x[i].state.z == y[i].state.z
        } by {
            if i < made {
                assert(a[i].visit_count == b[i].visit_count);
                if i != leaf {
                    assert(x[i] == a[i]);
                    assert(y[i] == b[i]);
                }
            }
        }
    } else {
        assert forall|i: int| 0 <= i < x.len() implies {
            &&& (#[trigger] x[i]).visit_count == y[i].visit_count
            &&& x[i].value_sum == y[i].value_sum
            &&& x[i].virtual_loss == y[i].virtual_loss
            &&& x[i].children@ == y[i].children@
            &&& x[i].state.policy@ == y[i].state.policy@
        } by {
            assert(a[i].visit_count == b[i].visit_count);
            assert(y[i].state == b[i].state);
        }
    }
}

/// The arrival of an evaluation is reproducible: in like trees, for the
/// same answer, it leaves like trees.
pub proof fn lemma_completion_is_reproducible(
    first: SearchTree,
    second: SearchTree,
    first_after: SearchTree,
    second_after: SearchTree,
    policy: Seq<u32>,
    value: i32,
)
    requires
        same_tree(first, second),
        completed(first, first_after, policy, value),
        completed(second, second_after, policy, value),
    ensures
        same_tree(first_after, second_after),
{
    let a = first.nodes@;
    let b = second.nodes@;
    let x = first_after.nodes@;
    let y = second_after.nodes@;
    lemma_parents_alike(a, b);
    assert(first.pending[0] == second.pending[0]);
    assert forall|i: int| 0 <= i < x.len() implies {
        &&& (#[trigger] x[i]).visit_count == y[i].visit_count
        &&& x[i].value_sum == y[i].value_sum
        &&& x[i].prior == y[i].prior
        &&& x[i].virtual_loss == y[i].virtual_loss
        &&& x[i].action == y[i].action
        &&& x[i].parent == y[i].parent
        &&& x[i].children@ == y[i].children@
        &&& x[i].state.env.turn == y[i].state.env.turn
        &&& x[i].state.env.board@ == y[i].state.env.board@
        &&& x[i].state.env.legal_moves@ == y[i].state.env.legal_moves@
        &&& x[i].state.env.legal_move_count == y[i].state.env.legal_move_count
        &&& x[i].state.status == y[i].state.status
        &&& x[i].state.policy@ == y[i].state.policy@
        &&& x[i].state.z == y[i].state.z
    } by {
        assert(a[i].visit_count == b[i].visit_count);
    }
}

/// Two ascending sequences with the same members are one.
pub proof fn lemma_ascending_with_same_members(s: Seq<usize>, t: Seq<usize>)
    requires
        forall|j: int, k: int| 0 <= j < k < s.len() ==> s[j] < s[k],
        forall|j: int, k: int| 0 <= j < k < t.len() ==> t[j] < t[k],
        forall|a: usize| s.contains(a) <==> t.contains(a),
    ensures
        s == t,
    decreases s.len(),
{
    if s.len() == 0 {
        if t.len() > 0 {
            assert(t.contains(t[0]));
        }
        assert(s =~= t);
    } else {
        let top = s.last();
        assert(s.contains(top));
        assert(t.contains(top));
        assert(t.len() > 0);
        let other = t.last();
        assert(t.contains(other));
        assert(s.contains(other));
        let at_t = choose|w: int| 0 <= w < t.len() && t[w] == top;
        let at_s = choose|w: int| 0 <= w < s.len() && s[w] == other;
        assert(top <= other);
        assert(other <= top);
        let ss = s.drop_last();
        let tt = t.drop_last();
        assert forall|a: usize| ss.contains(a) <==> tt.contains(a) by {
            if ss.contains(a) {
                let w = choose|w: int| 0 <= w < ss.len() && ss[w] == a;
                assert(s[w] == a && a < top);
                assert(s.contains(a));
                let v = choose|v: int| 0 <= v < t.len() && t[v] == a;
                assert(v < t.len() - 1);
                assert(tt[v] == a);
            }
            if tt.contains(a) {
                let w = choose|w: int| 0 <= w < tt.len() && tt[w] == a;
                assert(t[w] == a && a < other);
                assert(t.contains(a));
                let v = choose|v: int| 0 <= v < s.len() && s[v] == a;
                assert(v < s.len() - 1);
                assert(ss[v] == a);
            }
        }
        lemma_ascending_with_same_members(ss, tt);
        assert(s =~= ss.push(top));
        assert(t =~= tt.push(other));
    }
}

/// Whether `sampler` picks by the moves that it is shown alone: whatever
/// it returns for one list it returns for any list that holds the same.
pub open spec fn steady<F: Fn(&Vec<usize>) -> Option<usize>>(sampler: &F) -> bool {
    forall|s: &Vec<usize>, t: &Vec<usize>, a: Option<usize>, b: Option<usize>|
        s@ == t@ && #[trigger] sampler.ensures((s,), a) && #[trigger] sampler.ensures((t,), b) ==> a == b
}

/// A simulation is reproducible: with a sampler that picks by the moves
/// that it is shown alone, it returns the same request in like trees and
/// leaves like trees.
pub proof fn lemma_simulation_is_reproducible<F: Fn(&Vec<usize>) -> Option<usize>>(
    first: SearchTree,
    second: SearchTree,
    first_after: SearchTree,
    second_after: SearchTree,
    c: int,
    sampler: &F,
    first_request: Option<Request>,
    second_request: Option<Request>,
)
    requires
        first.wf(),
        same_tree(first, second),
        steady(sampler),
        simulated(first, first_after, c, sampler, first_request),
        simulated(second, second_after, c, sampler, second_request),
    ensures
        first_request == second_request,
        same_tree(first_after, second_after),
{
    let leaf = root_leaf(first.nodes@, c);
    let other_leaf = root_leaf(second.nodes@, c);
    let (first_mid, first_action): (SearchTree, Option<usize>) = choose|mid: SearchTree, action: Option<usize>|
        {
            &&& selects(first, mid, leaf, c)
            &&& sampled(mid.nodes@, leaf as int, action, sampler)
            &&& #[trigger] settles(mid, first_after, leaf, action, first_request)
        };
    let (second_mid, second_action): (SearchTree, Option<usize>) = choose|
        mid: SearchTree,
        action: Option<usize>,
    |
        {
            &&& selects(second, mid, other_leaf, c)
            &&& sampled(mid.nodes@, other_leaf as int, action, sampler)
            &&& #[trigger] settles(mid, second_after, other_leaf, action, second_request)
        };
    lemma_selection_is_reproducible(first, second, first_mid, second_mid, leaf, other_leaf, c);
    crate::laws::lemma_selection_ends(first, 0, c);
    let a = first_mid.nodes@;
    let b = second_mid.nodes@;
    assert(a[leaf as int].state.status == b[leaf as int].state.status);
    assert(linked(a)) by {
        crate::tree::lemma_same_shape(first.nodes@, a);
    }
    if !a[leaf as int].state.spec_is_terminal() {
        let s = choose|s: &Vec<usize>|
            {
                &&& forall|m: usize| s@.contains(m) <==> is_candidate(a, leaf as int, m)
                &&& forall|j: int, k: int| 0 <= j < k < s.len() ==> s[j] < s[k]
                &&& #[trigger] sampler.ensures((s,), first_action)
            };
        let t = choose|t: &Vec<usize>|
            {
                &&& forall|m: usize| t@.contains(m) <==> is_candidate(b, leaf as int, m)
                &&& forall|j: int, k: int| 0 <= j < k < t.len() ==> t[j] < t[k]
                &&& #[trigger] sampler.ensures((t,), second_action)
            };
        assert forall|m: usize| s@.contains(m) <==> t@.contains(m) by {
            lemma_candidates_alike(a, b, leaf as int, m);
        }
        lemma_ascending_with_same_members(s@, t@);
    }
    lemma_settling_is_reproducible(
        first_mid,
        second_mid,
        first_after,
        second_after,
        leaf,
        first_action,
        first_request,
        second_request,
    );
}

/// A batch of simulations is reproducible: with a sampler that picks by
/// the moves that it is shown alone, it leaves like trees of like trees.
pub proof fn lemma_simulations_are_reproducible<F: Fn(&Vec<usize>) -> Option<usize>>(
    first: SearchTree,
    second: SearchTree,
    first_after: SearchTree,
    second_after: SearchTree,
    times: nat,
    c: int,
    sampler: &F,
)
    requires
        first.wf(),
        same_tree(first, second),
        steady(sampler),
        simulated_times(first, first_after, times, c, sampler),
        simulated_times(second, second_after, times, c, sampler),
    ensures
        same_tree(first_after, second_after),
    decreases times,
{
    if times > 0 {
        let (first_mid, first_request): (SearchTree, Option<Request>) = choose|
            mid: SearchTree,
            request: Option<Request>,
        |
            simulated_times(first, mid, (times - 1) as nat, c, sampler) && mid.wf() && #[trigger] simulated(
                mid,
                first_after,
                c,
                sampler,
                request,
            );
        let (second_mid, second_request): (SearchTree, Option<Request>) = choose|
            mid: SearchTree,
            request: Option<Request>,
        |
            simulated_times(second, mid, (times - 1) as nat, c, sampler) && mid.wf() && #[trigger] simulated(
                mid,
                second_after,
                c,
                sampler,
                request,
            );
        lemma_simulations_are_reproducible(first, second, first_mid, second_mid, (times - 1) as nat, c, sampler);
        lemma_simulation_is_reproducible(
            first_mid,
            second_mid,
            first_after,
            second_after,
            c,
            sampler,
            first_request,
            second_request,
        );
    }
}

/// Whether two lists of move probabilities hold the same.
pub open spec fn same_policies(a: Seq<Vec<u32>>, b: Seq<Vec<u32>>) -> bool {
    &&& a.len() == b.len()
    &&& forall|k: int| 0 <= k < a.len() ==> (#[trigger] a[k])@ == b[k]@
}

/// The arrival of a batch of evaluations is reproducible: for answers that
/// hold the same it leaves like trees of like trees.
pub proof fn lemma_completions_are_reproducible(
    first: SearchTree,
    second: SearchTree,
    first_after: SearchTree,
    second_after: SearchTree,
    first_policies: Seq<Vec<u32>>,
    second_policies: Seq<Vec<u32>>,
    values: Seq<i32>,
    from: int,
    times: nat,
)
    requires
        same_tree(first, second),
        same_policies(first_policies, second_policies),
        0 <= from,
        from + times <= first_policies.len(),
        completed_times(first, first_after, first_policies, values, from, times),
        completed_times(second, second_after, second_policies, values, from, times),
    ensures
        same_tree(first_after, second_after),
    decreases times,
{
    if times > 0 {
        let first_mid = choose|mid: SearchTree|
            completed_times(first, mid, first_policies, values, from, (times - 1) as nat) && #[trigger] completed(
                mid,
                first_after,
                first_policies[from + times - 1]@,
                values[from + times - 1],
            );
        let second_mid = choose|mid: SearchTree|
            completed_times(second, mid, second_policies, values, from, (times - 1) as nat) && #[trigger] completed(
                mid,
                second_after,
                second_policies[from + times - 1]@,
                values[from + times - 1],
            );
        lemma_completions_are_reproducible(
            first,
            second,
            first_mid,
            second_mid,
            first_policies,
            second_policies,
            values,
            from,
            (times - 1) as nat,
        );
        assert(first_policies[from + times - 1]@ == second_policies[from + times - 1]@);
        lemma_completion_is_reproducible(
            first_mid,
            second_mid,
            first_after,
            second_after,
            first_policies[from + times - 1]@,
            values[from + times - 1],
        );
    }
}

/// Whether two lists of trees hold the same, tree by tree.
pub open spec fn same_trees(a: Seq<SearchTree>, b: Seq<SearchTree>) -> bool {
    &&& a.len() == b.len()
    &&& forall|t: int| 0 <= t < a.len() ==> same_tree(#[trigger] a[t], b[t])
}

/// Like trees make the same batch.
pub proof fn lemma_batches_alike(a: Seq<SearchTree>, b: Seq<SearchTree>)
    requires
        same_trees(a, b),
        all_wf(a),
    ensures
        spec_batch(a) == spec_batch(b),
        batch_len(a) == batch_len(b),
    decreases a.len(),
{
    if a.len() > 0 {
        let front_a = a.drop_last();
        let front_b = b.drop_last();
        assert forall|t: int| 0 <= t < front_a.len() implies same_tree(#[trigger] front_a[t], front_b[t]) by {
            assert(same_tree(a[t], b[t]));
        }
        assert forall|t: int| 0 <= t < front_a.len() implies (#[trigger] front_a[t]).wf() by {
            assert(a[t].wf());
        }
        lemma_batches_alike(front_a, front_b);
        let x = a.last();
        let y = b.last();
        assert(same_tree(a[a.len() - 1], b[a.len() - 1]));
        assert(x.wf());
        assert(tree_inputs(x) =~= tree_inputs(y)) by {
            assert forall|k: int| 0 <= k < x.pending@.len() implies tree_inputs(x)[k] == tree_inputs(y)[k] by {
                let at = x.pending[k].node as int;
                assert(x.nodes[at].state.env.board@ == y.nodes[at].state.env.board@);
            }
        }
    }
}

/// Like trees make the same batch up to each tree.
pub proof fn lemma_offsets_alike(a: Seq<SearchTree>, b: Seq<SearchTree>, t: int)
    requires
        same_trees(a, b),
        all_wf(a),
        0 <= t <= a.len(),
    ensures
        batch_len(a.take(t)) == batch_len(b.take(t)),
        batch_len(a.take(t)) <= batch_len(a),
        t < a.len() ==> batch_len(a.take(t)) + a[t].pending.len() <= batch_len(a),
{
    let front_a = a.take(t);
    let front_b = b.take(t);
    assert forall|u: int| 0 <= u < front_a.len() implies same_tree(#[trigger] front_a[u], front_b[u]) by {
        assert(same_tree(a[u], b[u]));
    }
    assert forall|u: int| 0 <= u < front_a.len() implies (#[trigger] front_a[u]).wf() by {
        assert(a[u].wf());
    }
    lemma_batches_alike(front_a, front_b);
    if t < a.len() {
        crate::parallel_mcts_executor::lemma_batch_take(a, t);
    } else {
        assert(a.take(t) =~= a);
    }
}

/// Whether two batches hold the same.
pub open spec fn same_inputs(s: &Vec<Vec<u8>>, t: &Vec<Vec<u8>>) -> bool {
    &&& s.len() == t.len()
    &&& forall|k: int| 0 <= k < s.len() ==> (#[trigger] s[k])@ == t[k]@
}

/// Whether two answers of an evaluator hold the same.
pub open spec fn same_answer<E>(a: Result<Evaluation, E>, b: Result<Evaluation, E>) -> bool {
    match (a, b) {
        (Ok(x), Ok(y)) => x.values@ == y.values@ && same_policies(x.policies@, y.policies@),
        (Err(e), Err(f)) => e == f,
        _ => false,
    }
}

/// Whether `evaluator` answers by what it is shown alone, with an answer
/// for each place of the batch.
pub open spec fn steady_evaluator<G: Fn(&Vec<Vec<u8>>) -> Result<Evaluation, E>, E>(evaluator: &G) -> bool {
    &&& forall|s: &Vec<Vec<u8>>, t: &Vec<Vec<u8>>, a: Result<Evaluation, E>, b: Result<Evaluation, E>|
        same_inputs(s, t) && #[trigger] evaluator.ensures((s,), a) && #[trigger] evaluator.ensures((t,), b)
            ==> same_answer(a, b)
    &&& forall|inputs: &Vec<Vec<u8>>, evaluation: Evaluation| #[trigger]
        evaluator.ensures((inputs,), Ok(evaluation)) ==> evaluation.fits(inputs.len() as int)
}

/// A round is reproducible: with a sampler and an evaluator that go by
/// what they are shown alone, it returns the same and leaves like trees of
/// like trees.
pub proof fn lemma_round_is_reproducible<
    F: Fn(&Vec<usize>) -> Option<usize>,
    G: Fn(&Vec<Vec<u8>>) -> Result<Evaluation, E>,
    E,
>(
    first: Seq<SearchTree>,
    second: Seq<SearchTree>,
    first_after: Seq<SearchTree>,
    second_after: Seq<SearchTree>,
    batch_size: nat,
    c: int,
    sampler: &F,
    evaluator: &G,
    first_result: Result<(), E>,
    second_result: Result<(), E>,
)
    requires
        all_wf(first),
        same_trees(first, second),
        steady(sampler),
        steady_evaluator(evaluator),
        round_done(first, first_after, batch_size, c, sampler, evaluator, first_result),
        round_done(second, second_after, batch_size, c, sampler, evaluator, second_result),
    ensures
        first_result == second_result,
        same_trees(first_after, second_after),
{
    let first_mid = choose|mid: Seq<SearchTree>| #[trigger]
        collected(first, mid, batch_size, c, sampler) && all_wf(mid) && asked(
            mid,
            first_after,
            evaluator,
            first_result,
        );
    let second_mid = choose|mid: Seq<SearchTree>| #[trigger]
        collected(second, mid, batch_size, c, sampler) && all_wf(mid) && asked(
            mid,
            second_after,
            evaluator,
            second_result,
        );
    assert forall|t: int| 0 <= t < first_mid.len() implies same_tree(#[trigger] first_mid[t], second_mid[t]) by {
        assert(first[t].wf());
        assert(same_tree(first[t], second[t]));
        assert(simulated_times(first[t], first_mid[t], batch_size, c, sampler));
        assert(simulated_times(second[t], second_mid[t], batch_size, c, sampler));
        lemma_simulations_are_reproducible(
            first[t],
            second[t],
            first_mid[t],
            second_mid[t],
            batch_size,
            c,
            sampler,
        );
    }
    lemma_batches_alike(first_mid, second_mid);
    if batch_len(first_mid) == 0 {
        assert(first_result->Ok_0 == second_result->Ok_0);
    } else {
        let (first_inputs, first_answer): (&Vec<Vec<u8>>, Result<Evaluation, E>) = choose|
            inputs: &Vec<Vec<u8>>,
            answer: Result<Evaluation, E>,
        |
            {
                &&& shows(first_mid, inputs)
                &&& #[trigger] evaluator.ensures((inputs,), answer)
                &&& match answer {
                    Ok(evaluation) => first_result is Ok && applied(first_mid, first_after, evaluation),
                    Err(error) => first_result == Err::<(), E>(error) && first_after == first_mid,
                }
            };
        let (second_inputs, second_answer): (&Vec<Vec<u8>>, Result<Evaluation, E>) = choose|
            inputs: &Vec<Vec<u8>>,
            answer: Result<Evaluation, E>,
        |
            {
                &&& shows(second_mid, inputs)
                &&& #[trigger] evaluator.ensures((inputs,), answer)
                &&& match answer {
                    Ok(evaluation) => second_result is Ok && applied(second_mid, second_after, evaluation),
                    Err(error) => second_result == Err::<(), E>(error) && second_after == second_mid,
                }
            };
        assert(same_inputs(first_inputs, second_inputs));
        assert(same_answer(first_answer, second_answer));
        match (first_answer, second_answer) {
            (Ok(x), Ok(y)) => {
                assert(first_result->Ok_0 == second_result->Ok_0);
                lemma_batch_len(first_mid);
                assert(x.fits(first_inputs.len() as int));
                assert forall|t: int| 0 <= t < first_mid.len() implies same_tree(
                    #[trigger] first_after[t],
                    second_after[t],
                ) by {
                    lemma_offsets_alike(first_mid, second_mid, t);
                    assert(same_tree(first_mid[t], second_mid[t]));
                    lemma_completions_are_reproducible(
                        first_mid[t],
                        second_mid[t],
                        first_after[t],
                        second_after[t],
                        x.policies@,
                        y.policies@,
                        x.values@,
                        batch_len(first_mid.take(t)) as int,
                        first_mid[t].pending.len() as nat,
                    );
                }
            },
            _ => {},
        }
    }
}

/// A run is reproducible: with a sampler and an evaluator that go by what
/// they are shown alone, two runs of as many rounds on like trees return
/// the same and leave like trees.
pub proof fn lemma_run_is_reproducible<
    F: Fn(&Vec<usize>) -> Option<usize>,
    G: Fn(&Vec<Vec<u8>>) -> Result<Evaluation, E>,
    E,
>(
    first: Seq<SearchTree>,
    second: Seq<SearchTree>,
    first_after: Seq<SearchTree>,
    second_after: Seq<SearchTree>,
    rounds: nat,
    batch_size: nat,
    c: int,
    sampler: &F,
    evaluator: &G,
    first_result: Result<(), E>,
    second_result: Result<(), E>,
)
    requires
        all_wf(first),
        same_trees(first, second),
        steady(sampler),
        steady_evaluator(evaluator),
        ran(first, first_after, rounds, batch_size, c, sampler, evaluator, first_result),
        ran(second, second_after, rounds, batch_size, c, sampler, evaluator, second_result),
    ensures
        first_result == second_result,
        same_trees(first_after, second_after),
    decreases rounds,
{
    if rounds == 0 {
        assert(first_result->Ok_0 == second_result->Ok_0);
    } else {
        let first_mid = choose|mid: Seq<SearchTree>|
            ran(first, mid, (rounds - 1) as nat, batch_size, c, sampler, evaluator, Ok::<(), E>(())) && all_wf(
                mid,
            ) && #[trigger] round_done(mid, first_after, batch_size, c, sampler, evaluator, first_result);
        let second_mid = choose|mid: Seq<SearchTree>|
            ran(second, mid, (rounds - 1) as nat, batch_size, c, sampler, evaluator, Ok::<(), E>(())) && all_wf(
                mid,
            ) && #[trigger] round_done(mid, second_after, batch_size, c, sampler, evaluator, second_result);
        lemma_run_is_reproducible(
            first,
            second,
            first_mid,
            second_mid,
            (rounds - 1) as nat,
            batch_size,
            c,
            sampler,
            evaluator,
            Ok::<(), E>(()),
            Ok::<(), E>(()),
        );
        lemma_round_is_reproducible(
            first_mid,
            second_mid,
            first_after,
            second_after,
            batch_size,
            c,
            sampler,
            evaluator,
            first_result,
            second_result,
        );
    }
}

} // verus!
