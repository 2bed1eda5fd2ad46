//! Expansion: which moves of a leaf are still open, and the making of a
//! child, once for each move.

use vstd::prelude::*;
use crate::bits::{bits_get, bits_of, bits_repeat, bits_set};
use crate::environment::status_after;
use crate::state::spec_uniform_policy;
use crate::tree::{
    bounded, child, extends, hangs, lemma_held_push, lemma_passes_push, linked, moved, parents_of, played,
    request_nodes, Node, SearchTree,
};

verus! {

/// Whether one of the first `count` children of node `i` was made by
/// `action`.
pub open spec fn taken_among(nodes: Seq<Node>, i: int, action: usize, count: int) -> bool {
    exists|k: int| 0 <= k < count && nodes[#[trigger] child(nodes, i, k)].action == Some(action)
}

/// Whether a child of node `i` was made by `action`.
pub open spec fn taken(nodes: Seq<Node>, i: int, action: usize) -> bool {
    taken_among(nodes, i, action, nodes[i].children.len() as int)
}

/// Whether `action` is open at node `i`: a free cell that no child of `i`
/// was made by.
pub open spec fn is_candidate(nodes: Seq<Node>, i: int, action: usize) -> bool {
    nodes[i].state.spec_is_available_action(action) && !taken(nodes, i, action)
}

/// Whether node `i` can get a child by `action`: the game goes on there and
/// `action` is open.
pub open spec fn can_expand(nodes: Seq<Node>, i: int, action: usize) -> bool {
    !nodes[i].state.spec_is_terminal() && is_candidate(nodes, i, action)
}

/// Whether `after` is `before` with one node more, the child of `leaf` by
/// `action`: it stands last, is the last child of `leaf`, has the position
/// that follows from its parent's by `action`, the probability that its
/// parent gives `action`, the virtual loss `loss`, and no visit, value or
/// child yet.
pub open spec fn grew(before: Seq<Node>, after: Seq<Node>, leaf: int, action: usize, loss: int) -> bool {
    let made = after[before.len() as int];
    &&& after.len() == before.len() + 1
    &&& forall|i: int| 0 <= i < before.len() && i != leaf ==> #[trigger] after[i] == before[i]
    &&& after[leaf].children@ == before[leaf].children@.push(before.len() as usize)
    &&& after[leaf].visit_count == before[leaf].visit_count
    &&& after[leaf].value_sum == before[leaf].value_sum
    &&& after[leaf].prior == before[leaf].prior
    &&& after[leaf].virtual_loss == before[leaf].virtual_loss
    &&& after[leaf].action == before[leaf].action
    &&& after[leaf].state == before[leaf].state
    &&& after[leaf].parent == before[leaf].parent
    &&& made.parent == Some(leaf as usize)
    &&& made.action == Some(action)
    &&& made.children@.len() == 0
    &&& made.visit_count == 0
    &&& made.value_sum == 0
    &&& made.virtual_loss == loss
    &&& made.prior == before[leaf].state.policy[action as int]
    &&& made.state.wf()
    &&& made.state.env.follows(before[leaf].state.env, action as int)
    &&& made.state.status == status_after(
        made.state.env.board@,
        action as int,
        before[leaf].state.env.turn,
        made.state.env.legal_move_count as int,
    )
    &&& made.state.policy@ == spec_uniform_policy(made.state.env.board@)
}

impl SearchTree {
    /// The moves that are open at `node`, in ascending order.
    pub fn candidates(&self, node: usize) -> (actions: Vec<usize>)
        requires
            linked(self.nodes@),
            played(self.nodes@),
            node < self.nodes.len(),
        ensures
            forall|a: usize| actions@.contains(a) <==> is_candidate(self.nodes@, node as int, a),
            forall|j: int, k: int| 0 <= j < k < actions.len() ==> actions[j] < actions[k],
    {
        let ghost nodes = self.nodes@;
        let mut bits = bits_repeat(false, 361);
        let count = self.nodes[node].children.len();
        let mut k: usize = 0;
        while k < count
            invariant
                nodes == self.nodes@,
                linked(nodes),
                played(nodes),
                node < nodes.len(),
                count == nodes[node as int].children.len(),
                k <= count,
                bits_of(bits).len() == 361,
                forall|a: usize| a < 361 ==> (bits_of(bits)[a as int] <==> taken_among(nodes, node as int, a, k as int)),
            decreases count - k,
        {
            let below = self.nodes[node].children[k];
            proof {
                assert(below == child(nodes, node as int, k as int));
                assert(hangs(nodes, below as int));
                assert(moved(nodes, below as int));
            }
            let action = self.nodes[below].action.unwrap();
            let ghost earlier = bits_of(bits);
            bits_set(&mut bits, action, true);
            proof {
                assert forall|a: usize| a < 361 implies (bits_of(bits)[a as int] <==> taken_among(
                    nodes,
                    node as int,
                    a,
                    k + 1,
                )) by {
                    if taken_among(nodes, node as int, a, k as int) {
                        let j = choose|j: int|
                            0 <= j < k && nodes[#[trigger] child(nodes, node as int, j)].action == Some(a);
                        assert(0 <= j < k + 1 && nodes[child(nodes, node as int, j)].action == Some(a));
                    }
                    if a == action {
                        assert(nodes[child(nodes, node as int, k as int)].action == Some(a));
                    }
                    if taken_among(nodes, node as int, a, k + 1) {
                        let j = choose|j: int|
                            0 <= j < k + 1 && nodes[#[trigger] child(nodes, node as int, j)].action == Some(
                                a,
                            );
                        if j < k {
                            assert(taken_among(nodes, node as int, a, k as int));
                        }
                    }
                }
            }
            k += 1;
        }
        let mut actions: Vec<usize> = Vec::new();
        let mut action: usize = 0;
        while action < 361
            invariant
                nodes == self.nodes@,
                node < nodes.len(),
                action <= 361,
                bits_of(bits).len() == 361,
                forall|a: usize| a < 361 ==> (bits_of(bits)[a as int] <==> taken(nodes, node as int, a)),
                forall|a: usize| actions@.contains(a) <==> a < action && is_candidate(nodes, node as int, a),
                forall|j: int, k: int| 0 <= j < k < actions.len() ==> actions[j] < actions[k],
            decreases 361 - action,
        {
            assert(bits_of(bits)[action as int] <==> taken(nodes, node as int, action));
            if self.nodes[node].state.is_available_action(action) && !bits_get(&bits, action) {
                let ghost earlier = actions@;
                actions.push(action);
                proof {
                    assert forall|a: usize| actions@.contains(a) <==> (earlier.contains(a) || a == action) by {
                        if earlier.contains(a) {
                            let w = choose|w: int| 0 <= w < earlier.len() && earlier[w] == a;
                            assert(actions@[w] == a);
                        }
                        if a == action {
                            assert(actions@[earlier.len() as int] == a);
                        }
                        if actions@.contains(a) {
                            let w = choose|w: int| 0 <= w < actions@.len() && actions@[w] == a;
                            if w < earlier.len() {
                                assert(earlier[w] == a);
                            }
                        }
                    }
                    assert forall|j: int, k: int| 0 <= j < k < actions.len() implies actions[j] < actions[k] by {
                        if k == earlier.len() {
                            assert(earlier.contains(earlier[j]));
                        }
                    }
                    assert forall|a: usize| actions@.contains(a) <==> a < action + 1 && is_candidate(
                        nodes,
                        node as int,
                        a,
                    ) by {
                        assert(earlier.contains(a) <==> a < action && is_candidate(nodes, node as int, a));
                    }
                }
            } else {
                proof {
                    assert(!is_candidate(nodes, node as int, action));
                    assert forall|a: usize| actions@.contains(a) <==> a < action + 1 && is_candidate(
                        nodes,
                        node as int,
                        a,
                    ) by {
                        assert(actions@.contains(a) <==> a < action && is_candidate(nodes, node as int, a));
                    }
                }
            }
            action += 1;
        }
        actions
    }

    /// Gives `leaf` a child by `action`, unless the game is over at `leaf`,
    /// `action` names no free cell, or `leaf` has a child by `action`
    /// already: then nothing changes.
    pub fn expand(&mut self, leaf: usize, action: usize) -> (made: Option<usize>)
        requires
            old(self).wf(),
            leaf < old(self).nodes.len(),
        ensures
            final(self).wf(),
            extends(*old(self), *final(self)),
            made is Some <==> can_expand(old(self).nodes@, leaf as int, action),
            made is None ==> final(self).nodes@ == old(self).nodes@,
            made is Some ==> made->0 == old(self).nodes.len() && grew(
                old(self).nodes@,
                final(self).nodes@,
                leaf as int,
                action,
                0,
            ),
            final(self).selected@ == old(self).selected@,
            final(self).pending@ == old(self).pending@,
            final(self).passes@ == old(self).passes@,
    {
        let ghost before = self.nodes@;
        proof {
            crate::tree::lemma_extends_itself(*self);
        }
        if self.nodes[leaf].state.is_terminal() || !self.nodes[leaf].state.is_available_action(action) {
            return None;
        }
        let count = self.nodes[leaf].children.len();
        let mut k: usize = 0;
        while k < count
            invariant
                before == self.nodes@,
                self.wf(),
                extends(*old(self), *self),
                self.selected@ == old(self).selected@,
                self.pending@ == old(self).pending@,
                self.passes@ == old(self).passes@,
                leaf < before.len(),
                count == before[leaf as int].children.len(),
                k <= count,
                !taken_among(before, leaf as int, action, k as int),
            decreases count - k,
        {
            let below = self.nodes[leaf].children[k];
            assert(below == child(before, leaf as int, k as int));
            match self.nodes[below].action {
                Some(other) => {
                    if other == action {
                        return None;
                    }
                },
                None => {},
            }
            k += 1;
        }
        let state = self.nodes[leaf].state.play(action);
        let prior = self.nodes[leaf].state.policy[action];
        let made = self.nodes.len();
        self.nodes.push(
            Node {
                visit_count: 0,
                value_sum: 0,
                prior,
                virtual_loss: 0,
                action: Some(action),
                state,
                children: Vec::new(),
                parent: Some(leaf),
            },
        );
        self.nodes[leaf].children.push(made);
        proof {
            let after = self.nodes@;
            let parents = parents_of(before);
            assert(grew(before, after, leaf as int, action, 0));
            assert(self.passes@.take(old(self).passes@.len() as int) =~= old(self).passes@);
            assert forall|i: int| 0 <= i < before.len() implies (#[trigger] after[i]).children@.take(
                before[i].children@.len() as int,
            ) == before[i].children@ by {
                assert(after[i].children@.take(before[i].children@.len() as int) =~= before[i].children@);
            }
            assert(extends(*old(self), *self));
            assert(parents_of(after) =~= parents.push(Some(leaf)));
            assert forall|i: int, k: int| 0 <= i < after.len() && 0 <= k < after[i].children.len() implies {
                &&& i < (#[trigger] child(after, i, k)) < after.len()
                &&& after[child(after, i, k)].parent == Some(i as usize)
            } by {
                if i == leaf && k == before[leaf as int].children.len() {
                } else if i < before.len() {
                    let c = child(before, i, k);
                    assert(child(after, i, k) == c);
                    assert(i < c < before.len());
                }
            }
            assert forall|i: int| 0 < i < after.len() implies #[trigger] hangs(after, i) by {
                if i < before.len() {
                    assert(hangs(before, i));
                    let up = before[i].parent->0 as int;
                    let w = choose|w: int| 0 <= w < before[up].children@.len() && before[up].children@[w] == i;
                    assert(after[up].children@[w] == i);
                } else {
                    assert(after[leaf as int].children@[before[leaf as int].children@.len() as int] == i);
                }
            }
            assert forall|i: int, j: int, k: int|
                0 <= i < after.len() && 0 <= j < k < after[i].children.len() implies {
                &&& (#[trigger] child(after, i, j)) < (#[trigger] child(after, i, k))
                &&& after[child(after, i, j)].action != after[child(after, i, k)].action
            } by {
                if i == leaf && k == before[leaf as int].children.len() {
                    let a = child(before, i, j);
                    assert(child(after, i, j) == a);
                    assert(i < a < before.len());
                    assert(before[a].action != Some(action));
                } else if i < before.len() {
                    let a = child(before, i, j);
                    let b = child(before, i, k);
                    assert(child(after, i, j) == a && child(after, i, k) == b);
                    assert(a < b);
                    assert(i < a < before.len() && i < b < before.len());
                }
            }
            assert forall|i: int| 0 < i < after.len() implies #[trigger] moved(after, i) by {
                if i < before.len() {
                    assert(hangs(before, i));
                    assert(moved(before, i));
                }
            }
            assert forall|i: int| 0 <= i < after.len() implies {
                &&& (#[trigger] after[i]).state.wf()
                &&& after[i].state.spec_is_terminal() ==> after[i].children.len() == 0
            } by {
                if i < before.len() {
                    assert(before[i].state.wf());
                }
            }
            assert(bounded(after)) by {
                assert forall|i: int| 0 <= i < after.len() implies -(#[trigger] after[i]).visit_count
                    * crate::score::OUTCOME_LIMIT <= after[i].value_sum <= after[i].visit_count
                    * crate::score::OUTCOME_LIMIT by {
                    if i < before.len() {
                        assert(before[i].visit_count == after[i].visit_count);
                    }
                }
            }
            assert forall|i: int| 0 <= i < after.len() implies {
                &&& (#[trigger] after[i]).visit_count == crate::tree::visits(self.parents(), self.passes@, i)
                &&& after[i].value_sum == crate::tree::credit(self.parents(), self.passes@, i)
                &&& after[i].virtual_loss == crate::tree::held(self.parents(), self.selected@, i)
                    + crate::tree::held(self.parents(), request_nodes(self.pending@), i)
            } by {
                lemma_passes_push(parents, Some(leaf), self.passes@, i);
                lemma_held_push(parents, Some(leaf), self.selected@, i);
                lemma_held_push(parents, Some(leaf), request_nodes(self.pending@), i);
                if i < before.len() {
                    assert(before[i].visit_count == after[i].visit_count);
                }
            }
            assert forall|k: int| 0 <= k < self.pending.len() implies {
                &&& (#[trigger] self.pending[k]).node < self.nodes.len()
                &&& self.pending[k].terminal_reward == crate::state::spec_terminal_reward(
                    self.nodes[self.pending[k].node as int].state.status,
                )
            } by {
                let at = old(self).pending[k].node as int;
                assert(before[at].state == after[at].state);
            }
        }
        Some(made)
    }
}

} // verus!
