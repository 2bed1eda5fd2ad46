//! What holds of every tree, whatever was done to it.

use vstd::prelude::*;
use crate::expand::grew;
use crate::parallel_mcts_executor::{advanced, all_wf, idle};
use crate::select::{best_place, child_scores, leaf_from};
use crate::simulate::{root_leaf, sampled, selects, settles, simulated};
use crate::tree::{
    child, climbs, credit, extends, hangs, held, lemma_child_place, lemma_on_path_below, on_path, parents_of,
    request_nodes, share, visits, Node, Request, SearchTree,
};

verus! {

/// A node's visit count is the number of backpropagation passes that went
/// through it, and its value sum is what those passes added.
pub proof fn lemma_visit_count_is_number_of_passes(tree: SearchTree, i: int)
    requires
        tree.wf(),
        0 <= i < tree.nodes.len(),
    ensures
        tree.nodes[i].visit_count == visits(tree.parents(), tree.passes@, i),
        tree.nodes[i].value_sum == credit(tree.parents(), tree.passes@, i),
{
}

/// At a later stage of a tree no node has fewer visits than it had, none
/// has lost a child, and each has the parent and the move that it had.
pub proof fn lemma_nothing_is_taken_back(pre: SearchTree, post: SearchTree, i: int)
    requires
        extends(pre, post),
        0 <= i < pre.nodes.len(),
    ensures
        i < post.nodes.len(),
        post.nodes[i].visit_count >= pre.nodes[i].visit_count,
        post.nodes[i].parent == pre.nodes[i].parent,
        post.nodes[i].action == pre.nodes[i].action,
        post.nodes[i].children@.len() >= pre.nodes[i].children@.len(),
        forall|k: int|
            0 <= k < pre.nodes[i].children@.len() ==> post.nodes[i].children@[k] == pre.nodes[i].children@[k],
{
    let earlier = pre.nodes[i].children@;
    let later = post.nodes[i].children@;
    assert(later.take(earlier.len() as int) == earlier);
    assert forall|k: int| 0 <= k < earlier.len() implies later[k] == earlier[k] by {
        assert(later.take(earlier.len() as int)[k] == later[k]);
    }
}

/// No two children of a node were made by the same move.
pub proof fn lemma_children_moves_differ(tree: SearchTree, i: int, j: int, k: int)
    requires
        tree.wf(),
        0 <= i < tree.nodes.len(),
        0 <= j < tree.nodes[i].children.len(),
        0 <= k < tree.nodes[i].children.len(),
        j != k,
    ensures
        tree.nodes[child(tree.nodes@, i, j)].action is Some,
        tree.nodes[child(tree.nodes@, i, k)].action is Some,
        tree.nodes[child(tree.nodes@, i, j)].action != tree.nodes[child(tree.nodes@, i, k)].action,
{
    let a = child(tree.nodes@, i, j);
    let b = child(tree.nodes@, i, k);
    assert(i < a < tree.nodes.len() && i < b < tree.nodes.len());
    assert(hangs(tree.nodes@, a));
    assert(hangs(tree.nodes@, b));
    if j < k {
        assert(tree.nodes[a].action != tree.nodes[b].action);
    } else {
        assert(tree.nodes[b].action != tree.nodes[a].action);
    }
}

/// No node was made by the move that made one of its siblings.
pub proof fn lemma_siblings_moves_differ(tree: SearchTree, a: int, b: int)
    requires
        tree.wf(),
        0 < a < tree.nodes.len(),
        0 < b < tree.nodes.len(),
        a != b,
        tree.nodes[a].parent == tree.nodes[b].parent,
    ensures
        tree.nodes[a].action != tree.nodes[b].action,
{
    assert(hangs(tree.nodes@, a));
    assert(hangs(tree.nodes@, b));
    let up = tree.nodes[a].parent->0 as int;
    let j = lemma_child_place(tree.nodes@, up, a);
    let k = lemma_child_place(tree.nodes@, up, b);
    lemma_children_moves_differ(tree, up, j, k);
}

/// The number of steps that selection takes from node `i` to its leaf.
pub open spec fn descent(nodes: Seq<Node>, i: int, c: int) -> nat
    decreases nodes.len() - i,
{
    let next = child(nodes, i, best_place(nodes, i, c));
    if 0 <= i < next < nodes.len() && nodes[i].children.len() > 0 {
        1 + descent(nodes, next, c)
    } else {
        0
    }
}

/// Selection ends: from a node of the tree it reaches, in fewer steps than
/// the tree has nodes, a node below it that has no child.
pub proof fn lemma_selection_ends(tree: SearchTree, i: int, c: int)
    requires
        tree.wf(),
        0 <= i < tree.nodes.len(),
    ensures
        i <= leaf_from(tree.nodes@, i, c) < tree.nodes.len(),
        tree.nodes[leaf_from(tree.nodes@, i, c)].children.len() == 0,
        on_path(tree.parents(), leaf_from(tree.nodes@, i, c), i),
        descent(tree.nodes@, i, c) <= leaf_from(tree.nodes@, i, c) - i,
    decreases tree.nodes.len() - i,
{
    let nodes = tree.nodes@;
    if nodes[i].children.len() > 0 {
        let scores = child_scores(nodes, i, c);
        lemma_has_first_max(scores);
        let place = best_place(nodes, i, c);
        let next = child(nodes, i, place);
        assert(i < next < nodes.len());
        lemma_selection_ends(tree, next, c);
        let leaf = leaf_from(nodes, next, c);
        assert(tree.parents()[next] == Some(i as usize));
        crate::tree::lemma_path_up(tree.parents(), leaf, next);
    }
}

/// A sequence that is not empty has a first place of its largest entry.
pub proof fn lemma_has_first_max(scores: Seq<int>)
    requires
        scores.len() > 0,
    ensures
        exists|k: int| crate::score::is_first_max(scores, k),
    decreases scores.len(),
{
    if scores.len() == 1 {
        assert(crate::score::is_first_max(scores, 0));
    } else {
        let front = scores.drop_last();
        lemma_has_first_max(front);
        let k = choose|k: int| crate::score::is_first_max(front, k);
        if scores.last() > front[k] {
            assert(crate::score::is_first_max(scores, scores.len() - 1)) by {
                assert forall|j: int| 0 <= j < scores.len() - 1 implies scores[j] < scores.last() by {
                    assert(front[j] <= front[k]);
                }
            }
        } else {
            assert(crate::score::is_first_max(scores, k)) by {
                assert forall|j: int| 0 <= j < scores.len() implies scores[j] <= scores[k] by {
                    if j < scores.len() - 1 {
                        assert(front[j] <= front[k]);
                    }
                }
                assert forall|j: int| 0 <= j < k implies scores[j] < scores[k] by {
                    assert(front[j] < front[k]);
                }
            }
        }
    }
}

/// Paths among the first nodes of a tree stay what they are when nodes are
/// added after them.
pub proof fn lemma_path_stage(
    earlier: Seq<Option<usize>>,
    later: Seq<Option<usize>>,
    start: int,
    value: int,
    i: int,
)
    requires
        earlier.len() <= later.len(),
        forall|j: int| 0 <= j < earlier.len() ==> earlier[j] == later[j],
        0 <= start < earlier.len(),
    ensures
        on_path(later, start, i) == on_path(earlier, start, i),
        share(later, start, value, i) == share(earlier, start, value, i),
    decreases start,
{
    if start != i && climbs(earlier, start) {
        lemma_path_stage(earlier, later, earlier[start]->0 as int, -value, i);
    }
}

/// What the first nodes of a tree hold stays what it is when nodes are
/// added after them, and the added nodes hold nothing for starts among the
/// first.
pub proof fn lemma_held_stage(
    earlier: Seq<Option<usize>>,
    later: Seq<Option<usize>>,
    starts: Seq<usize>,
    i: int,
)
    requires
        earlier.len() <= later.len(),
        forall|j: int| 0 <= j < earlier.len() ==> earlier[j] == later[j],
        forall|k: int| 0 <= k < starts.len() ==> (#[trigger] starts[k]) < earlier.len(),
    ensures
        held(later, starts, i) == held(earlier, starts, i),
        i >= earlier.len() ==> held(later, starts, i) == 0,
    decreases starts.len(),
{
    if starts.len() > 0 {
        lemma_held_stage(earlier, later, starts.drop_last(), i);
        lemma_path_stage(earlier, later, starts.last() as int, 0, i);
        if i >= earlier.len() && on_path(earlier, starts.last() as int, i) {
            lemma_on_path_below(earlier, starts.last() as int, i);
        }
    }
}

/// A tree in which no simulation is unfinished holds no virtual loss.
pub proof fn lemma_idle_tree_holds_no_virtual_loss(tree: SearchTree, i: int)
    requires
        tree.wf(),
        tree.selected.len() == 0,
        tree.pending.len() == 0,
        0 <= i < tree.nodes.len(),
    ensures
        tree.nodes[i].virtual_loss == 0,
{
    assert(request_nodes(tree.pending@).len() == 0);
}

/// Virtual loss comes back: at a later stage of a tree at which the same
/// simulations are unfinished as before, every node holds the virtual loss
/// that it held, and every node made since holds none.
pub proof fn lemma_virtual_loss_comes_back(pre: SearchTree, post: SearchTree, i: int)
    requires
        pre.wf(),
        post.wf(),
        extends(pre, post),
        post.selected@ == pre.selected@,
        post.pending@ == pre.pending@,
        0 <= i < post.nodes.len(),
    ensures
        i < pre.nodes.len() ==> post.nodes[i].virtual_loss == pre.nodes[i].virtual_loss,
        i >= pre.nodes.len() ==> post.nodes[i].virtual_loss == 0,
{
    let earlier = pre.parents();
    let later = post.parents();
    assert forall|j: int| 0 <= j < earlier.len() implies earlier[j] == later[j] by {
        assert(post.nodes[j].parent == pre.nodes[j].parent);
    }
    assert forall|k: int| 0 <= k < request_nodes(pre.pending@).len() implies (#[trigger] request_nodes(
        pre.pending@,
    )[k]) < earlier.len() by {
        assert(pre.pending[k].node < pre.nodes.len());
    }
    lemma_held_stage(earlier, later, pre.selected@, i);
    lemma_held_stage(earlier, later, request_nodes(pre.pending@), i);
}

/// A simulation that makes no request leaves every virtual loss as it
/// was: what selection put on the way to the leaf has come back, whether the
/// game was over at the leaf or the leaf had no open move.
pub proof fn lemma_simulation_without_request_returns_virtual_loss<F: Fn(&Vec<usize>) -> Option<usize>>(
    pre: SearchTree,
    post: SearchTree,
    c: int,
    sampler: &F,
    i: int,
)
    requires
        pre.wf(),
        simulated(pre, post, c, sampler, None),
        0 <= i < pre.nodes.len(),
    ensures
        post.nodes.len() == pre.nodes.len(),
        post.nodes[i].virtual_loss == pre.nodes[i].virtual_loss,
{
    let leaf = root_leaf(pre.nodes@, c);
    let (mid, action): (SearchTree, Option<usize>) = choose|mid: SearchTree, action: Option<usize>|
        {
            &&& selects(pre, mid, leaf, c)
            &&& sampled(mid.nodes@, leaf as int, action, sampler)
            &&& #[trigger] settles(mid, post, leaf, action, None)
        };
    assert(parents_of(mid.nodes@) =~= parents_of(pre.nodes@));
    assert(mid.nodes[i].virtual_loss == pre.nodes[i].virtual_loss + if on_path(
        parents_of(pre.nodes@),
        leaf as int,
        i,
    ) {
        1int
    } else {
        0int
    });
}

/// A simulation that makes a request leaves one virtual loss on the new
/// node and on every node of the way to it, and no other.
pub proof fn lemma_simulation_with_request_keeps_one_virtual_loss<F: Fn(&Vec<usize>) -> Option<usize>>(
    pre: SearchTree,
    post: SearchTree,
    c: int,
    sampler: &F,
    request: Request,
    i: int,
)
    requires
        pre.wf(),
        simulated(pre, post, c, sampler, Some(request)),
        0 <= i < post.nodes.len(),
    ensures
        post.nodes.len() == pre.nodes.len() + 1,
        request.node == pre.nodes.len(),
        i < pre.nodes.len() ==> post.nodes[i].virtual_loss == pre.nodes[i].virtual_loss + if on_path(
            post.parents(),
            request.node as int,
            i,
        ) {
            1int
        } else {
            0int
        },
        i == request.node ==> post.nodes[i].virtual_loss == 1,
{
    let leaf = root_leaf(pre.nodes@, c);
    let (mid, action): (SearchTree, Option<usize>) = choose|mid: SearchTree, action: Option<usize>|
        {
            &&& selects(pre, mid, leaf, c)
            &&& sampled(mid.nodes@, leaf as int, action, sampler)
            &&& #[trigger] settles(mid, post, leaf, action, Some(request))
        };
    let earlier = parents_of(pre.nodes@);
    let later = post.parents();
    lemma_selection_ends(pre, 0, c);
    assert(parents_of(mid.nodes@) =~= earlier);
    assert(grew(mid.nodes@, post.nodes@, leaf as int, action->0, 1));
    let made = pre.nodes.len() as int;
    assert(later[made] == Some(leaf));
    assert forall|j: int| 0 <= j < earlier.len() implies earlier[j] == later[j] by {
        if j != leaf {
            assert(post.nodes[j] == mid.nodes[j]);
        }
    }
    if i < made {
        lemma_path_stage(earlier, later, leaf as int, 0, i);
        assert(climbs(later, made));
        assert(on_path(later, made, i) == on_path(later, leaf as int, i));
        if i != leaf {
            assert(post.nodes[i] == mid.nodes[i]);
        }
    }
}

/// A round gives all virtual loss back: where no request waited before
/// rounds that ended with none waiting, every node of every tree holds the
/// virtual loss that it held, and every node made since holds none.
pub proof fn lemma_rounds_return_virtual_loss(
    pre: Seq<SearchTree>,
    post: Seq<SearchTree>,
    attempts: int,
    t: int,
    i: int,
)
    requires
        all_wf(pre),
        advanced(pre, post, attempts),
        idle(pre),
        idle(post),
        0 <= t < pre.len(),
        0 <= i < post[t].nodes.len(),
    ensures
        i < pre[t].nodes.len() ==> post[t].nodes[i].virtual_loss == pre[t].nodes[i].virtual_loss,
        i >= pre[t].nodes.len() ==> post[t].nodes[i].virtual_loss == 0,
{
    assert(pre[t].wf());
    assert(post[t].wf());
    assert(post[t].pending@ =~= pre[t].pending@);
    lemma_virtual_loss_comes_back(pre[t], post[t], i);
}

} // verus!
