//! The arrival of an evaluation at the node that waited for it.

use vstd::prelude::*;
use crate::simulate::returned_virtual_loss;
use crate::state::spec_terminal_reward;
use crate::tree::{
    bounded, child, extends, hangs, held, lemma_child_place, lemma_held_bound, lemma_held_remove, lemma_same_shape, linked, moved,
    on_path, parents_of, played, request_nodes, same_shape, share, Node, Pass, Request, SearchTree,
};

verus! {

/// The outcome that goes up the tree for `request` when the evaluator
/// estimates `value`: the outcome of the game where it is over, else the
/// estimate.
pub open spec fn spec_reward(request: Request, value: i32) -> i32 {
    match request.terminal_reward {
        Some(reward) => reward,
        None => value,
    }
}

/// Whether `after` is `before` once the evaluation of `node` arrived with
/// the move probabilities `policy` and the outcome `reward`: `node` has
/// `policy`, each child of `node` has the probability that `policy` gives
/// its move, and a pass from `node` with `reward` went up: one visit more
/// and one virtual loss less on every node of the way, `reward` added to
/// the value sums with the sign turned at each step up. Nothing else
/// changed.
pub open spec fn evaluated(before: Seq<Node>, after: Seq<Node>, node: int, policy: Seq<u32>, reward: int) -> bool {
    &&& after.len() == before.len()
    &&& forall|i: int|
        0 <= i < before.len() ==> {
            let through = if on_path(parents_of(before), node, i) {
                1int
            } else {
                0int
            };
            &&& (#[trigger] after[i]).visit_count == before[i].visit_count + through
            &&& after[i].value_sum == before[i].value_sum + share(parents_of(before), node, reward, i)
            &&& after[i].virtual_loss == before[i].virtual_loss - through
            &&& after[i].prior == if before[i].parent == Some(node as usize) {
                policy[before[i].action->0 as int]
            } else {
                before[i].prior
            }
            &&& after[i].state.policy@ == if i == node {
                policy
            } else {
                before[i].state.policy@
            }
            &&& after[i].state.env == before[i].state.env
            &&& after[i].state.status == before[i].state.status
            &&& after[i].state.z == before[i].state.z
            &&& after[i].action == before[i].action
            &&& after[i].children == before[i].children
            &&& after[i].parent == before[i].parent
        }
}

impl SearchTree {
    /// Writes `policy` to `node` and, for each of its children, the
    /// probability of the child's move to the child.
    fn spread_policy(&mut self, node: usize, policy: &Vec<u32>)
        requires
            linked(old(self).nodes@),
            played(old(self).nodes@),
            node < old(self).nodes.len(),
            policy.len() == 361,
        ensures
            same_shape(old(self).nodes@, final(self).nodes@),
            final(self).selected@ == old(self).selected@,
            final(self).pending@ == old(self).pending@,
            final(self).passes@ == old(self).passes@,
            forall|i: int|
                0 <= i < old(self).nodes.len() ==> {
                    let before = old(self).nodes[i];
                    let after = #[trigger] final(self).nodes[i];
                    &&& after.visit_count == before.visit_count
                    &&& after.value_sum == before.value_sum
                    &&& after.virtual_loss == before.virtual_loss
                    &&& after.prior == if before.parent == Some(node) {
                        policy[before.action->0 as int]
                    } else {
                        before.prior
                    }
                    &&& after.state.policy@ == if i == node {
                        policy@
                    } else {
                        before.state.policy@
                    }
                },
    {
        let ghost before = self.nodes@;
        let mut table = [0u32; 361];
        let mut a: usize = 0;
        while a < 361
            invariant
                a <= 361,
                policy.len() == 361,
                forall|j: int| 0 <= j < a ==> (#[trigger] table[j]) == policy[j],
            decreases 361 - a,
        {
            table[a] = policy[a];
            a += 1;
        }
        assert(table@ =~= policy@);
        self.nodes[node].state.policy = table;
        let count = self.nodes[node].children.len();
        let mut k: usize = 0;
        let ghost mut limit: int = if count == 0 {
            before.len() as int
        } else {
            child(before, node as int, 0)
        };
        proof {
            assert forall|i: int| 0 <= i < before.len() && before[i].parent == Some(node) && i < limit implies false by {
                assert(before.len() == self.nodes.len());
                let w = lemma_child_place(before, node as int, i);
                if w > 0 {
                    assert(child(before, node as int, 0) < child(before, node as int, w));
                }
            }
        }
        while k < count
            invariant
                before == old(self).nodes@,
                linked(before),
                played(before),
                node < before.len(),
                policy.len() == 361,
                count == before[node as int].children.len(),
                k <= count,
                limit == if k < count {
                    child(before, node as int, k as int)
                } else {
                    before.len() as int
                },
                same_shape(before, self.nodes@),
                self.selected@ == old(self).selected@,
                self.pending@ == old(self).pending@,
                self.passes@ == old(self).passes@,
                forall|i: int|
                    0 <= i < before.len() ==> {
                        &&& (#[trigger] self.nodes[i]).visit_count == before[i].visit_count
                        &&& self.nodes[i].value_sum == before[i].value_sum
                        &&& self.nodes[i].virtual_loss == before[i].virtual_loss
                        &&& self.nodes[i].prior == if before[i].parent == Some(node) && i < limit {
                            policy[before[i].action->0 as int]
                        } else {
                            before[i].prior
                        }
                        &&& self.nodes[i].state.policy@ == if i == node {
                            policy@
                        } else {
                            before[i].state.policy@
                        }
                    },
            decreases count - k,
        {
            let below = self.nodes[node].children[k];
            proof {
                assert(below == child(before, node as int, k as int));
                assert(hangs(before, below as int));
                assert(moved(before, below as int));
            }
            let action = self.nodes[below].action.unwrap();
            self.nodes[below].prior = policy[action];
            proof {
                let next: int = if k + 1 < count {
                    child(before, node as int, k + 1)
                } else {
                    before.len() as int
                };
                assert forall|i: int|
                    0 <= i < before.len() && before[i].parent == Some(node) && below < i < next implies false by {
                    assert(before.len() == self.nodes.len());
                    let w = lemma_child_place(before, node as int, i);
                    if w < k {
                        assert(child(before, node as int, w) < child(before, node as int, k as int));
                    } else if w > k + 1 {
                        assert(child(before, node as int, k + 1) < child(before, node as int, w));
                    }
                }
                limit = next;
            }
            k += 1;
        }
    }

    /// Ends the wait of the oldest pending request: it leaves the pending
    /// ones and the way from its node gives its virtual loss back.
    fn drop_pending(&mut self) -> (request: Request)
        requires
            old(self).wf(),
            old(self).pending.len() > 0,
        ensures
            final(self).wf(),
            extends(*old(self), *final(self)),
            request == old(self).pending[0],
            final(self).pending@ == old(self).pending@.remove(0),
            final(self).selected@ == old(self).selected@,
            final(self).passes@ == old(self).passes@,
            returned_virtual_loss(old(self).nodes@, final(self).nodes@, request.node as int),
    {
        let ghost before = self.nodes@;
        let ghost parents = self.parents();
        let ghost waiting = request_nodes(self.pending@);
        let request = self.pending.remove(0);
        proof {
            assert(request_nodes(self.pending@) =~= waiting.remove(0));
            assert forall|i: int| 0 <= i < before.len() && on_path(parents, request.node as int, i) implies (
            #[trigger] before[i]).virtual_loss >= 1 by {
                lemma_held_remove(parents, waiting, 0, i);
                lemma_held_bound(parents, self.selected@, i);
                lemma_held_bound(parents, request_nodes(self.pending@), i);
            }
        }
        self.release_path(request.node);
        proof {
            lemma_same_shape(before, self.nodes@);
            assert(self.passes@.take(old(self).passes@.len() as int) =~= old(self).passes@);
            crate::tree::lemma_extends_same_shape(*old(self), *self);
            assert forall|i: int| 0 <= i < self.nodes.len() implies (#[trigger] self.nodes[i]).virtual_loss
                == held(parents, self.selected@, i) + held(parents, request_nodes(self.pending@), i) by {
                lemma_held_remove(parents, waiting, 0, i);
            }
            assert(bounded(self.nodes@)) by {
                assert forall|i: int| 0 <= i < self.nodes.len() implies -(#[trigger] self.nodes[i]).visit_count
                    * crate::score::OUTCOME_LIMIT <= self.nodes[i].value_sum <= self.nodes[i].visit_count
                    * crate::score::OUTCOME_LIMIT by {
                    assert(before[i].visit_count == self.nodes[i].visit_count);
                }
            }
            assert forall|j: int| 0 <= j < self.pending.len() implies {
                &&& (#[trigger] self.pending[j]).node < self.nodes.len()
                &&& self.pending[j].terminal_reward == spec_terminal_reward(
                    self.nodes[self.pending[j].node as int].state.status,
                )
            } by {
                assert(self.pending[j] == old(self).pending[j + 1]);
                let at = old(self).pending[j + 1].node as int;
                assert(before[at].state == self.nodes[at].state);
            }
        }
        request
    }

    /// Hands the evaluation of the oldest pending request to its node:
    /// `policy` becomes the node's move probabilities and gives each child
    /// of the node its prior; the outcome of the game where it is over
    /// there, else `value`, goes up the tree; and the way from the node
    /// gives its virtual loss back.
    pub fn complete(&mut self, policy: &Vec<u32>, value: i32) -> (request: Request)
        requires
            old(self).wf(),
            old(self).pending.len() > 0,
            policy.len() == 361,
        ensures
            final(self).wf(),
            extends(*old(self), *final(self)),
            final(self).load() == old(self).load(),
            request == old(self).pending[0],
            final(self).pending@ == old(self).pending@.remove(0),
            final(self).selected@ == old(self).selected@,
            final(self).passes@ == old(self).passes@.push(
                Pass { start: request.node, value: spec_reward(request, value) },
            ),
            evaluated(
                old(self).nodes@,
                final(self).nodes@,
                request.node as int,
                policy@,
                spec_reward(request, value) as int,
            ),
    {
        let ghost before = self.nodes@;
        let ghost parents = self.parents();
        let first = self.pending[0];
        let node = first.node;
        let reward = match first.terminal_reward {
            Some(reward) => reward,
            None => value,
        };
        self.spread_policy(node, policy);
        let ghost spread = self.nodes@;
        let ghost first_stage = *self;
        proof {
            lemma_same_shape(before, spread);
            assert(self.passes@.take(old(self).passes@.len() as int) =~= old(self).passes@);
            crate::tree::lemma_extends_same_shape(*old(self), *self);
            assert(bounded(spread)) by {
                assert forall|i: int| 0 <= i < spread.len() implies -(#[trigger] spread[i]).visit_count
                    * crate::score::OUTCOME_LIMIT <= spread[i].value_sum <= spread[i].visit_count
                    * crate::score::OUTCOME_LIMIT by {
                    assert(before[i].visit_count == spread[i].visit_count);
                }
            }
            assert forall|i: int| 0 <= i < spread.len() implies {
                &&& (#[trigger] spread[i]).visit_count == crate::tree::visits(parents, self.passes@, i)
                &&& spread[i].value_sum == crate::tree::credit(parents, self.passes@, i)
                &&& spread[i].virtual_loss == held(parents, self.selected@, i) + held(
                    parents,
                    request_nodes(self.pending@),
                    i,
                )
            } by {
                assert(before[i].visit_count == spread[i].visit_count);
            }
            assert forall|j: int| 0 <= j < self.pending.len() implies {
                &&& (#[trigger] self.pending[j]).node < self.nodes.len()
                &&& self.pending[j].terminal_reward == spec_terminal_reward(
                    self.nodes[self.pending[j].node as int].state.status,
                )
            } by {
                let at = self.pending[j].node as int;
                assert(before[at].state.status == spread[at].state.status);
            }
        }
        let request = self.drop_pending();
        let ghost second_stage = *self;
        proof {
            assert(parents_of(self.nodes@) =~= parents);
        }
        self.propagate(node, reward);
        proof {
            crate::tree::lemma_extends_on(*old(self), first_stage, second_stage);
            crate::tree::lemma_extends_on(*old(self), second_stage, *self);
        }
        request
    }
}

} // verus!
