//! One simulation: from selection to a settled leaf, which is either a
//! finished game, a leaf with no open move, or a new node that waits for
//! its evaluation.

use vstd::prelude::*;
use crate::expand::{can_expand, grew};
use crate::select::{leaf_from, took_virtual_loss};
use crate::state::{spec_terminal_reward, terminal_reward};
use crate::tree::{
    bounded, climbs, hangs, held, lemma_held_add, lemma_held_bound, lemma_held_remove, lemma_on_path_below,
    extends, lemma_path_up, lemma_same_shape, linked, on_path, parents_of, played, request_nodes, share, Node, Pass,
    Request, SearchTree,
};

verus! {

/// Whether `after` is `before` with one virtual loss less on every node of
/// the way from `start` up to the root, and nothing else changed.
pub open spec fn returned_virtual_loss(before: Seq<Node>, after: Seq<Node>, start: int) -> bool {
    &&& after.len() == before.len()
    &&& forall|i: int|
        0 <= i < before.len() ==> {
            &&& (#[trigger] after[i]).virtual_loss == before[i].virtual_loss - if on_path(
                parents_of(before),
                start,
                i,
            ) {
                1int
            } else {
                0int
            }
            &&& after[i].visit_count == before[i].visit_count
            &&& after[i].value_sum == before[i].value_sum
            &&& after[i].prior == before[i].prior
            &&& after[i].action == before[i].action
            &&& after[i].state == before[i].state
            &&& after[i].children == before[i].children
            &&& after[i].parent == before[i].parent
        }
}

/// Whether `k` is the last place of `x` in `s`.
pub open spec fn is_last_place(s: Seq<usize>, x: usize, k: int) -> bool {
    &&& 0 <= k < s.len()
    &&& s[k] == x
    &&& forall|j: int| k < j < s.len() ==> s[j] != x
}

/// The last place of `x` in `s`.
pub open spec fn last_place(s: Seq<usize>, x: usize) -> int {
    choose|k: int| is_last_place(s, x, k)
}

/// Whether `after` is `before` once a pass from `start` with `value` went
/// up and the way from `start` gave its virtual loss back: one visit more
/// and one virtual loss less on every node of the way, `value` added to the
/// value sums with the sign turned at each step up, and nothing else
/// changed.
pub open spec fn backed_up(before: Seq<Node>, after: Seq<Node>, start: int, value: int) -> bool {
    &&& after.len() == before.len()
    &&& forall|i: int|
        0 <= i < before.len() ==> {
            let through = if on_path(parents_of(before), start, i) {
                1int
            } else {
                0int
            };
            &&& (#[trigger] after[i]).visit_count == before[i].visit_count + through
            &&& after[i].value_sum == before[i].value_sum + share(parents_of(before), start, value, i)
            &&& after[i].virtual_loss == before[i].virtual_loss - through
            &&& after[i].prior == before[i].prior
            &&& after[i].action == before[i].action
            &&& after[i].state == before[i].state
            &&& after[i].children == before[i].children
            &&& after[i].parent == before[i].parent
        }
}

/// The leaf that selection reaches from the root.
pub open spec fn root_leaf(nodes: Seq<Node>, c: int) -> usize {
    leaf_from(nodes, 0, c) as usize
}

/// What selection does to a tree: it reaches `leaf`, which joins the
/// selected ones, and the way to it takes virtual loss.
pub open spec fn selects(pre: SearchTree, post: SearchTree, leaf: usize, c: int) -> bool {
    &&& leaf == leaf_from(pre.nodes@, 0, c)
    &&& post.selected@ == pre.selected@.push(leaf)
    &&& post.pending@ == pre.pending@
    &&& post.passes@ == pre.passes@
    &&& took_virtual_loss(pre.nodes@, post.nodes@, leaf as int)
}

/// What settling the selected `leaf` with the sampled `action` does to a
/// tree. The leaf leaves the selected ones, and
/// - where the game is over at `leaf`, its outcome goes up the tree and the
///   way gives its virtual loss back;
/// - else where `action` is a move that `leaf` can be expanded by, `leaf`
///   gets that child, which keeps one virtual loss and is returned as a
///   request that waits for its evaluation;
/// - else the way gives its virtual loss back and nothing more happens.
pub open spec fn settles(
    pre: SearchTree,
    post: SearchTree,
    leaf: usize,
    action: Option<usize>,
    request: Option<Request>,
) -> bool {
    let nodes = pre.nodes@;
    &&& post.selected@ == pre.selected@.remove(last_place(pre.selected@, leaf))
    &&& if nodes[leaf as int].state.spec_is_terminal() {
        &&& request is None
        &&& post.pending@ == pre.pending@
        &&& post.passes@ == pre.passes@.push(Pass { start: leaf, value: nodes[leaf as int].state.z })
        &&& backed_up(nodes, post.nodes@, leaf as int, nodes[leaf as int].state.z as int)
    } else if action is Some && can_expand(nodes, leaf as int, action->0) {
        &&& grew(nodes, post.nodes@, leaf as int, action->0, 1)
        &&& request == Some(
            Request {
                node: nodes.len() as usize,
                terminal_reward: spec_terminal_reward(post.nodes@[nodes.len() as int].state.status),
            },
        )
        &&& post.pending@ == pre.pending@.push(request->0)
        &&& post.passes@ == pre.passes@
    } else {
        &&& request is None
        &&& post.pending@ == pre.pending@
        &&& post.passes@ == pre.passes@
        &&& returned_virtual_loss(nodes, post.nodes@, leaf as int)
    }
}

impl SearchTree {
    /// Whether selection has reached `leaf` and it is not settled yet.
    pub fn is_selected(&self, leaf: usize) -> (found: bool)
        ensures
            found == self.selected@.contains(leaf),
    {
        let mut k: usize = 0;
        while k < self.selected.len()
            invariant
                k <= self.selected.len(),
                forall|j: int| 0 <= j < k ==> self.selected[j] != leaf,
            decreases self.selected.len() - k,
        {
            if self.selected[k] == leaf {
                return true;
            }
            k += 1;
        }
        false
    }

    /// The last place of `leaf` among the selected leaves.
    fn place_of(&self, leaf: usize) -> (k: usize)
        requires
            self.selected@.contains(leaf),
        ensures
            is_last_place(self.selected@, leaf, k as int),
            k == last_place(self.selected@, leaf),
    {
        let ghost w = choose|w: int| 0 <= w < self.selected@.len() && self.selected@[w] == leaf;
        let mut k: usize = self.selected.len() - 1;
        while self.selected[k] != leaf
            invariant
                0 <= w < self.selected.len(),
                self.selected@[w] == leaf,
                w <= k < self.selected.len(),
                forall|j: int| k < j < self.selected.len() ==> self.selected[j] != leaf,
            decreases k,
        {
            k -= 1;
        }
        proof {
            let other = last_place(self.selected@, leaf);
            assert(is_last_place(self.selected@, leaf, k as int));
            assert(is_last_place(self.selected@, leaf, other));
        }
        k
    }

    /// Takes one virtual loss off every node of the way from `start` up to
    /// the root.
    pub(crate) fn release_path(&mut self, start: usize)
        requires
            linked(old(self).nodes@),
            played(old(self).nodes@),
            start < old(self).nodes.len(),
            forall|i: int|
                0 <= i < old(self).nodes.len() && on_path(old(self).parents(), start as int, i) ==> (
                #[trigger] old(self).nodes[i]).virtual_loss >= 1,
        ensures
            returned_virtual_loss(old(self).nodes@, final(self).nodes@, start as int),
            final(self).selected@ == old(self).selected@,
            final(self).pending@ == old(self).pending@,
            final(self).passes@ == old(self).passes@,
    {
        let ghost before = self.nodes@;
        let ghost parents = self.parents();
        let mut current: usize = start;
        let mut done = false;
        let ghost mut bound: int = start as int;
        proof {
            assert forall|i: int| on_path(parents, start as int, i) implies i <= start by {
                lemma_on_path_below(parents, start as int, i);
            }
        }
        while !done
            invariant
                before == old(self).nodes@,
                parents == parents_of(before),
                linked(before),
                start < before.len(),
                self.nodes.len() == before.len(),
                self.selected@ == old(self).selected@,
                self.pending@ == old(self).pending@,
                self.passes@ == old(self).passes@,
                forall|i: int|
                    0 <= i < before.len() && on_path(parents, start as int, i) ==> (#[trigger] before[i]).virtual_loss
                        >= 1,
                current < before.len(),
                !done ==> bound == current && on_path(parents, start as int, current as int),
                done ==> bound == -1,
                forall|i: int|
                    0 <= i < before.len() ==> {
                        &&& (#[trigger] self.nodes[i]).virtual_loss == before[i].virtual_loss - if on_path(
                            parents,
                            start as int,
                            i,
                        ) && i > bound {
                            1int
                        } else {
                            0int
                        }
                        &&& self.nodes[i].visit_count == before[i].visit_count
                        &&& self.nodes[i].value_sum == before[i].value_sum
                        &&& self.nodes[i].prior == before[i].prior
                        &&& self.nodes[i].action == before[i].action
                        &&& self.nodes[i].state == before[i].state
                        &&& self.nodes[i].children == before[i].children
                        &&& self.nodes[i].parent == before[i].parent
                    },
            decreases bound + 1,
        {
            let ghost at = current as int;
            proof {
                assert(parents[at] == before[at].parent);
                if current > 0 {
                    assert(hangs(before, at));
                }
            }
            let loss = self.nodes[current].virtual_loss;
            self.nodes[current].virtual_loss = loss - 1;
            match self.nodes[current].parent {
                Some(up) => {
                    proof {
                        lemma_path_up(parents, start as int, at);
                        bound = up as int;
                    }
                    current = up;
                },
                None => {
                    proof {
                        bound = -1;
                    }
                    done = true;
                },
            }
            proof {
                assert forall|i: int| 0 <= i < before.len() && on_path(parents, start as int, i) && i
                    > bound implies i >= at by {
                    if i < at {
                        Self::lemma_path_gap(parents, start as int, at, i);
                    }
                }
            }
        }
    }

    /// Ends the simulation of the `k`-th selected leaf without a result: the
    /// leaf leaves the selected ones and its way gives its virtual loss
    /// back.
    fn drop_selected(&mut self, k: usize)
        requires
            old(self).wf(),
            k < old(self).selected.len(),
        ensures
            final(self).wf(),
            extends(*old(self), *final(self)),
            final(self).selected@ == old(self).selected@.remove(k as int),
            final(self).pending@ == old(self).pending@,
            final(self).passes@ == old(self).passes@,
            returned_virtual_loss(old(self).nodes@, final(self).nodes@, old(self).selected[k as int] as int),
    {
        let ghost before = self.nodes@;
        let ghost parents = self.parents();
        let leaf = self.selected.remove(k);
        proof {
            assert forall|i: int| 0 <= i < before.len() && on_path(parents, leaf as int, i) implies (
            #[trigger] before[i]).virtual_loss >= 1 by {
                lemma_held_remove(parents, old(self).selected@, k as int, i);
                lemma_held_bound(parents, self.selected@, i);
                lemma_held_bound(parents, request_nodes(self.pending@), i);
            }
        }
        self.release_path(leaf);
        proof {
            lemma_same_shape(before, self.nodes@);
            assert(self.passes@.take(old(self).passes@.len() as int) =~= old(self).passes@);
            crate::tree::lemma_extends_same_shape(*old(self), *self);
            assert forall|i: int| 0 <= i < self.nodes.len() implies (#[trigger] self.nodes[i]).virtual_loss
                == held(parents, self.selected@, i) + held(parents, request_nodes(self.pending@), i) by {
                lemma_held_remove(parents, old(self).selected@, k as int, i);
            }
            assert(bounded(self.nodes@)) by {
                assert forall|i: int| 0 <= i < self.nodes.len() implies -(#[trigger] self.nodes[i]).visit_count
                    * crate::score::OUTCOME_LIMIT <= self.nodes[i].value_sum <= self.nodes[i].visit_count
                    * crate::score::OUTCOME_LIMIT by {
                    assert(before[i].visit_count == self.nodes[i].visit_count);
                }
            }
            assert forall|j: int| 0 <= j < self.pending.len() implies {
                &&& (#[trigger] self.pending[j]).node < self.nodes.len()
                &&& self.pending[j].terminal_reward == spec_terminal_reward(
                    self.nodes[self.pending[j].node as int].state.status,
                )
            } by {
                let at = old(self).pending[j].node as int;
                assert(before[at].state == self.nodes[at].state);
            }
        }
    }

    /// Hands the simulation of the `k`-th selected leaf over to its new child
    /// `made`: the leaf leaves the selected ones, and `made` takes one
    /// virtual loss and waits for its evaluation.
    fn promote(&mut self, k: usize, made: usize) -> (request: Request)
        requires
            old(self).wf(),
            k < old(self).selected.len(),
            0 < made < old(self).nodes.len(),
            old(self).nodes[made as int].parent == Some(old(self).selected[k as int]),
        ensures
            final(self).wf(),
            extends(*old(self), *final(self)),
            request == (Request {
                node: made,
                terminal_reward: spec_terminal_reward(old(self).nodes[made as int].state.status),
            }),
            final(self).selected@ == old(self).selected@.remove(k as int),
            final(self).pending@ == old(self).pending@.push(request),
            final(self).passes@ == old(self).passes@,
            final(self).nodes.len() == old(self).nodes.len(),
            forall|i: int|
                0 <= i < old(self).nodes.len() && i != made ==> (#[trigger] final(self).nodes[i]) == old(
                    self,
                ).nodes[i],
            final(self).nodes[made as int].virtual_loss == old(self).nodes[made as int].virtual_loss + 1,
            final(self).nodes[made as int].visit_count == old(self).nodes[made as int].visit_count,
            final(self).nodes[made as int].value_sum == old(self).nodes[made as int].value_sum,
            final(self).nodes[made as int].prior == old(self).nodes[made as int].prior,
            final(self).nodes[made as int].action == old(self).nodes[made as int].action,
            final(self).nodes[made as int].state == old(self).nodes[made as int].state,
            final(self).nodes[made as int].children == old(self).nodes[made as int].children,
            final(self).nodes[made as int].parent == old(self).nodes[made as int].parent,
    {
        let ghost before = self.nodes@;
        let ghost parents = self.parents();
        let leaf = self.selected.remove(k);
        let request = Request { node: made, terminal_reward: terminal_reward(self.nodes[made].state.status) };
        self.pending.push(request);
        proof {
            assert(request_nodes(self.pending@) =~= request_nodes(old(self).pending@).push(made));
            lemma_held_remove(parents, old(self).selected@, k as int, made as int);
            lemma_held_add(parents, request_nodes(old(self).pending@), made, made as int);
            lemma_held_bound(parents, self.selected@, made as int);
            lemma_held_bound(parents, request_nodes(self.pending@), made as int);
            assert(hangs(before, made as int));
            assert(parents[made as int] == Some(leaf));
            assert(climbs(parents, made as int));
            if on_path(parents, leaf as int, made as int) {
                lemma_on_path_below(parents, leaf as int, made as int);
            }
            assert(request_nodes(self.pending@).len() == self.pending@.len());
        }
        let loss = self.nodes[made].virtual_loss;
        self.nodes[made].virtual_loss = loss + 1;
        proof {
            lemma_same_shape(before, self.nodes@);
            assert(self.passes@.take(old(self).passes@.len() as int) =~= old(self).passes@);
            crate::tree::lemma_extends_same_shape(*old(self), *self);
            assert forall|i: int| 0 <= i < self.nodes.len() implies (#[trigger] self.nodes[i]).virtual_loss
                == held(parents, self.selected@, i) + held(parents, request_nodes(self.pending@), i) by {
                lemma_held_remove(parents, old(self).selected@, k as int, i);
                lemma_held_add(parents, request_nodes(old(self).pending@), made, i);
                if i != made {
                    assert(on_path(parents, made as int, i) == on_path(parents, leaf as int, i));
                }
            }
            assert(bounded(self.nodes@)) by {
                assert forall|i: int| 0 <= i < self.nodes.len() implies -(#[trigger] self.nodes[i]).visit_count
                    * crate::score::OUTCOME_LIMIT <= self.nodes[i].value_sum <= self.nodes[i].visit_count
                    * crate::score::OUTCOME_LIMIT by {
                    assert(before[i].visit_count == self.nodes[i].visit_count);
                }
            }
            assert forall|j: int| 0 <= j < self.pending.len() implies {
                &&& (#[trigger] self.pending[j]).node < self.nodes.len()
                &&& self.pending[j].terminal_reward == spec_terminal_reward(
                    self.nodes[self.pending[j].node as int].state.status,
                )
            } by {
                let at = self.pending[j].node as int;
                assert(before[at].state == self.nodes[at].state);
            }
        }
        request
    }

    /// Settles the selected `leaf` with the sampled `action`: a finished
    /// game sends its outcome up the tree; a leaf that `action` can expand
    /// gets that child, which is returned as a request; any other leaf is
    /// given up. In each case but the second the way from `leaf` gives its
    /// virtual loss back; in the second the new child keeps it.
    pub fn settle(&mut self, leaf: usize, action: Option<usize>) -> (request: Option<Request>)
        requires
            old(self).wf(),
            old(self).selected@.contains(leaf),
        ensures
            final(self).wf(),
            extends(*old(self), *final(self)),
            final(self).load() <= old(self).load(),
            settles(*old(self), *final(self), leaf, action, request),
    {
        let ghost before = self.nodes@;
        let k = self.place_of(leaf);
        if self.nodes[leaf].state.is_terminal() {
            let z = self.nodes[leaf].state.z;
            self.drop_selected(k);
            let ghost mid = *self;
            proof {
                assert(parents_of(self.nodes@) =~= parents_of(before));
            }
            self.propagate(leaf, z);
            proof {
                crate::tree::lemma_extends_on(*old(self), mid, *self);
            }
            None
        } else {
            match action {
                Some(a) => match self.expand(leaf, a) {
                    Some(made) => {
                        let ghost mid = *self;
                        let request = self.promote(k, made);
                        proof {
                            crate::tree::lemma_extends_on(*old(self), mid, *self);
                        }
                        Some(request)
                    },
                    None => {
                        self.drop_selected(k);
                        None
                    },
                },
                None => {
                    self.drop_selected(k);
                    None
                },
            }
        }
    }

    /// One simulation: selects a leaf and settles it, with a move that
    /// `sampler` picks among the open ones where the game goes on there.
    pub fn simulate<F: Fn(&Vec<usize>) -> Option<usize>>(&mut self, c_puct: u32, sampler: &F) -> (request:
        Option<Request>)
        requires
            old(self).wf(),
            old(self).load() < u64::MAX,
            forall|candidates: &Vec<usize>| sampler.requires((candidates,)),
        ensures
            final(self).wf(),
            extends(*old(self), *final(self)),
            final(self).load() <= old(self).load() + 1,
            final(self).selected@ == old(self).selected@,
            final(self).pending@ == match request {
                Some(made) => old(self).pending@.push(made),
                None => old(self).pending@,
            },
            simulated(*old(self), *final(self), c_puct as int, sampler, request),
    {
        let leaf = self.select_leaf(c_puct);
        let ghost mid = *self;
        let action = if self.nodes[leaf].state.is_terminal() {
            None
        } else {
            let candidates = self.candidates(leaf);
            let picked = sampler(&candidates);
            proof {
                assert(sampler.ensures((&candidates,), picked));
                assert(sampled(mid.nodes@, leaf as int, picked, sampler));
            }
            picked
        };
        proof {
            assert(self.selected@.last() == leaf);
            assert(is_last_place(self.selected@, leaf, self.selected@.len() - 1));
            assert(is_last_place(self.selected@, leaf, last_place(self.selected@, leaf)));
            assert(self.selected@.remove(self.selected@.len() - 1) =~= old(self).selected@);
        }
        let request = self.settle(leaf, action);
        proof {
            crate::tree::lemma_extends_on(*old(self), mid, *self);
            assert(leaf == root_leaf(old(self).nodes@, c_puct as int));
            assert(selects(*old(self), mid, leaf, c_puct as int));
            assert(sampled(mid.nodes@, leaf as int, action, sampler));
            assert(settles(mid, *self, leaf, action, request));
        }
        request
    }
}

/// What one simulation does to a tree: selection reaches a leaf, and the
/// leaf is settled with nothing where the game is over there, else with
/// what `sampler` picked among its open moves.
pub open spec fn simulated<F: Fn(&Vec<usize>) -> Option<usize>>(
    pre: SearchTree,
    post: SearchTree,
    c: int,
    sampler: &F,
    request: Option<Request>,
) -> bool {
    exists|mid: SearchTree, action: Option<usize>|
        {
            &&& selects(pre, mid, root_leaf(pre.nodes@, c), c)
            &&& sampled(mid.nodes@, root_leaf(pre.nodes@, c) as int, action, sampler)
            &&& #[trigger] settles(mid, post, root_leaf(pre.nodes@, c), action, request)
        }
}

/// Whether `action` is what a simulation hands to settling for `leaf`:
/// nothing where the game is over there, else what `sampler` returned for
/// the open moves of `leaf` in ascending order.
pub open spec fn sampled<F: Fn(&Vec<usize>) -> Option<usize>>(
    nodes: Seq<Node>,
    leaf: int,
    action: Option<usize>,
    sampler: &F,
) -> bool {
    if nodes[leaf].state.spec_is_terminal() {
        action is None
    } else {
        exists|candidates: &Vec<usize>|
            {
                &&& forall|a: usize| candidates@.contains(a) <==> crate::expand::is_candidate(nodes, leaf, a)
                &&& forall|j: int, k: int| 0 <= j < k < candidates.len() ==> candidates[j] < candidates[k]
                &&& #[trigger] sampler.ensures((candidates,), action)
            }
    }
}

} // verus!
