//! Selection: the way from the root to a leaf, at each node into the child
//! that scores highest.

use vstd::prelude::*;
use crate::score::{compute_ucb_1, first_max, is_first_max, lemma_first_max_unique, puct};
use crate::tree::{
    bounded, child, hangs, held, lemma_held_add, lemma_held_bound, lemma_same_shape, linked, on_path,
    extends, parents_of, request_nodes, Node, SearchTree,
};

verus! {

/// The scores of the children of node `i`, in their order, under the
/// exploration constant `c`.
pub open spec fn child_scores(nodes: Seq<Node>, i: int, c: int) -> Seq<int> {
    Seq::new(
        nodes[i].children@.len(),
        |k: int|
            {
                let below = nodes[child(nodes, i, k)];
                puct(
                    nodes[i].visit_count as int,
                    below.visit_count as int,
                    below.value_sum as int,
                    below.prior as int,
                    c,
                )
            },
    )
}

/// The place, among the children of node `i`, of the first that scores
/// highest.
pub open spec fn best_place(nodes: Seq<Node>, i: int, c: int) -> int {
    choose|k: int| is_first_max(child_scores(nodes, i, c), k)
}

/// The leaf that selection reaches from node `i`: `i` itself where it has no
/// child, else the leaf reached from its best child.
pub open spec fn leaf_from(nodes: Seq<Node>, i: int, c: int) -> int
    decreases nodes.len() - i,
{
    let next = child(nodes, i, best_place(nodes, i, c));
    if 0 <= i < next < nodes.len() && nodes[i].children.len() > 0 {
        leaf_from(nodes, next, c)
    } else {
        i
    }
}

impl SearchTree {
    /// The place, among the children of `node`, of the first that scores
    /// highest.
    pub fn best_child(&self, node: usize, c_puct: u32) -> (place: usize)
        requires
            linked(self.nodes@),
            bounded(self.nodes@),
            node < self.nodes.len(),
            self.nodes[node as int].children.len() > 0,
        ensures
            place == best_place(self.nodes@, node as int, c_puct as int),
            is_first_max(child_scores(self.nodes@, node as int, c_puct as int), place as int),
    {
        let parent_n = self.nodes[node].visit_count;
        let count = self.nodes[node].children.len();
        let ghost wanted = child_scores(self.nodes@, node as int, c_puct as int);
        let mut scores: Vec<i128> = Vec::new();
        let mut k: usize = 0;
        while k < count
            invariant
                linked(self.nodes@),
                bounded(self.nodes@),
                node < self.nodes.len(),
                count == self.nodes[node as int].children.len(),
                parent_n == self.nodes[node as int].visit_count,
                wanted == child_scores(self.nodes@, node as int, c_puct as int),
                k <= count,
                scores.len() == k,
                forall|j: int| 0 <= j < k ==> (#[trigger] scores[j]) == wanted[j],
            decreases count - k,
        {
            let below = self.nodes[node].children[k];
            assert(below == child(self.nodes@, node as int, k as int));
            let stats = &self.nodes[below];
            scores.push(compute_ucb_1(parent_n, stats.visit_count, stats.value_sum, stats.prior, c_puct));
            k += 1;
        }
        let place = first_max(&scores);
        proof {
            assert(scores@.map_values(|s: i128| s as int) =~= wanted);
            lemma_first_max_unique(wanted, place as int, best_place(self.nodes@, node as int, c_puct as int));
        }
        place
    }

    /// Walks from the root to a leaf, at each node into the child that
    /// scores highest, the first of them where several do. Every node on the
    /// way takes one virtual loss, and the leaf joins the selected ones.
    pub fn select_leaf(&mut self, c_puct: u32) -> (leaf: usize)
        requires
            old(self).wf(),
            old(self).load() < u64::MAX,
        ensures
            final(self).wf(),
            extends(*old(self), *final(self)),
            leaf == leaf_from(old(self).nodes@, 0, c_puct as int),
            leaf < final(self).nodes.len(),
            final(self).nodes[leaf as int].children.len() == 0,
            final(self).selected@ == old(self).selected@.push(leaf),
            final(self).pending@ == old(self).pending@,
            final(self).passes@ == old(self).passes@,
            took_virtual_loss(old(self).nodes@, final(self).nodes@, leaf as int),
    {
        let ghost before = self.nodes@;
        let ghost parents = self.parents();
        let ghost c = c_puct as int;
        proof {
            lemma_held_bound(parents, self.selected@, 0);
            lemma_held_bound(parents, request_nodes(self.pending@), 0);
            assert forall|i: int| on_path(parents, 0, i) implies i == 0 by {}
        }
        let loss = self.nodes[0].virtual_loss;
        self.nodes[0].virtual_loss = loss + 1;
        let mut current: usize = 0;
        let mut descending = true;
        while descending
            invariant
                old(self).wf(),
                before == old(self).nodes@,
                parents == parents_of(before),
                c == c_puct as int,
                old(self).load() < u64::MAX,
                self.selected@ == old(self).selected@,
                self.pending@ == old(self).pending@,
                self.passes@ == old(self).passes@,
                current < before.len(),
                leaf_from(before, 0, c) == leaf_from(before, current as int, c),
                !descending ==> before[current as int].children.len() == 0,
                took_virtual_loss(before, self.nodes@, current as int),
            decreases before.len() - current + if descending { 1int } else { 0int },
        {
            proof {
                lemma_same_shape(before, self.nodes@);
            }
            if self.nodes[current].children.len() == 0 {
                descending = false;
            } else {
                let place = self.best_child(current, c_puct);
                let next = self.nodes[current].children[place];
                proof {
                    assert(child_scores(self.nodes@, current as int, c) =~= child_scores(
                        before,
                        current as int,
                        c,
                    )) by {
                        assert forall|k: int| 0 <= k < before[current as int].children.len() implies child(
                            self.nodes@,
                            current as int,
                            k,
                        ) == child(before, current as int, k) by {}
                        assert forall|k: int| 0 <= k < before[current as int].children.len() implies child(
                            before,
                            current as int,
                            k,
                        ) < before.len() by {}
                    }
                    assert(next == child(before, current as int, place as int));
                    assert(current < next < before.len());
                    assert(hangs(before, next as int));
                    lemma_held_bound(parents, self.selected@, next as int);
                    lemma_held_bound(parents, request_nodes(self.pending@), next as int);
                    if on_path(parents, current as int, next as int) {
                        crate::tree::lemma_on_path_below(parents, current as int, next as int);
                    }
                    assert(parents[next as int] == Some(current));
                }
                let loss = self.nodes[next].virtual_loss;
                self.nodes[next].virtual_loss = loss + 1;
                current = next;
            }
        }
        self.selected.push(current);
        proof {
            lemma_same_shape(before, self.nodes@);
            assert(self.passes@.take(old(self).passes@.len() as int) =~= old(self).passes@);
            crate::tree::lemma_extends_same_shape(*old(self), *self);
            assert forall|i: int| 0 <= i < self.nodes.len() implies (#[trigger] self.nodes[i]).virtual_loss
                == held(parents, self.selected@, i) + held(parents, request_nodes(self.pending@), i) by {
                lemma_held_add(parents, old(self).selected@, current, i);
            }
        }
        current
    }
}

/// Whether `after` is `before` with one more virtual loss on every node of
/// the way from `leaf` up to the root, and nothing else changed.
pub open spec fn took_virtual_loss(before: Seq<Node>, after: Seq<Node>, leaf: int) -> bool {
    &&& after.len() == before.len()
    &&& forall|i: int|
        0 <= i < before.len() ==> {
            &&& (#[trigger] after[i]).virtual_loss == before[i].virtual_loss + if on_path(
                parents_of(before),
                leaf,
                i,
            ) {
                1int
            } else {
                0int
            }
            &&& after[i].visit_count == before[i].visit_count
            &&& after[i].value_sum == before[i].value_sum
            &&& after[i].prior == before[i].prior
            &&& after[i].action == before[i].action
            &&& after[i].state == before[i].state
            &&& after[i].children == before[i].children
            &&& after[i].parent == before[i].parent
        }
}

} // verus!
