//! The search tree: nodes in one vector, each after its parent, with the
//! statistics that selection reads and backpropagation writes.

use vstd::prelude::*;
use crate::score::OUTCOME_LIMIT;
use crate::state::{spec_terminal_reward, BoardState};

verus! {

/// One position of the tree.
pub struct Node {
    /// How many backpropagation passes went through this node.
    pub visit_count: u64,
    /// The sum of the outcomes of those passes, each seen by the player who
    /// moved into this node, in `ONE`-ths.
    pub value_sum: i128,
    /// The probability of the move into this node, in `ONE`-ths.
    pub prior: u32,
    /// How many simulations that went through this node are unfinished.
    pub virtual_loss: u64,
    /// The move into this node; the root has none.
    pub action: Option<usize>,
    pub state: BoardState,
    /// The children in the order in which they were added.
    pub children: Vec<usize>,
    /// The parent; the root has none.
    pub parent: Option<usize>,
}

/// A node that waits for its evaluation.
#[derive(Debug, Clone, Copy, PartialEq, Eq, Structural)]
pub struct Request {
    pub node: usize,
    /// The outcome of the game where it ended at this node.
    pub terminal_reward: Option<i32>,
}

/// One backpropagation pass: where it started and the outcome it carried.
pub struct Pass {
    pub start: usize,
    pub value: i32,
}

/// The parent of every node.
pub open spec fn parents_of(nodes: Seq<Node>) -> Seq<Option<usize>> {
    Seq::new(nodes.len(), |i: int| nodes[i].parent)
}

/// Whether node `i` has a parent, which stands before it.
pub open spec fn climbs(parents: Seq<Option<usize>>, i: int) -> bool {
    0 < i < parents.len() && parents[i] is Some && parents[i]->0 < i
}

/// Whether node `i` lies on the way from node `start` up to the root, the
/// two ends included.
pub open spec fn on_path(parents: Seq<Option<usize>>, start: int, i: int) -> bool
    decreases start,
{
    start == i || (climbs(parents, start) && on_path(parents, parents[start]->0 as int, i))
}

/// What a pass that starts at node `start` with `value` adds to the value
/// sum of node `i`: `value` at `start`, and the opposite sign with each step
/// up, since the players alternate; nothing off the path.
pub open spec fn share(parents: Seq<Option<usize>>, start: int, value: int, i: int) -> int
    decreases start,
{
    if start == i {
        value
    } else if climbs(parents, start) {
        share(parents, parents[start]->0 as int, -value, i)
    } else {
        0
    }
}

/// The number of `passes` that went through node `i`.
pub open spec fn visits(parents: Seq<Option<usize>>, passes: Seq<Pass>, i: int) -> int
    decreases passes.len(),
{
    if passes.len() == 0 {
        0
    } else {
        visits(parents, passes.drop_last(), i) + if on_path(parents, passes.last().start as int, i) {
            1int
        } else {
            0int
        }
    }
}

/// What `passes` added to the value sum of node `i`.
pub open spec fn credit(parents: Seq<Option<usize>>, passes: Seq<Pass>, i: int) -> int
    decreases passes.len(),
{
    if passes.len() == 0 {
        0
    } else {
        credit(parents, passes.drop_last(), i) + share(
            parents,
            passes.last().start as int,
            passes.last().value as int,
            i,
        )
    }
}

/// The number of `starts` whose way to the root leads through node `i`.
pub open spec fn held(parents: Seq<Option<usize>>, starts: Seq<usize>, i: int) -> int
    decreases starts.len(),
{
    if starts.len() == 0 {
        0
    } else {
        held(parents, starts.drop_last(), i) + if on_path(parents, starts.last() as int, i) {
            1int
        } else {
            0int
        }
    }
}

/// The nodes of `requests`, in their order.
pub open spec fn request_nodes(requests: Seq<Request>) -> Seq<usize> {
    requests.map_values(|r: Request| r.node)
}

/// The `k`-th child of node `i`.
pub open spec fn child(nodes: Seq<Node>, i: int, k: int) -> int {
    nodes[i].children@[k] as int
}

/// Whether node `i`, which is not the root, hangs in the tree: it has a move
/// and a parent, stands after the parent and is among its children.
pub open spec fn hangs(nodes: Seq<Node>, i: int) -> bool {
    &&& nodes[i].parent is Some
    &&& nodes[i].parent->0 < i
    &&& nodes[i].action is Some
    &&& nodes[nodes[i].parent->0 as int].children@.contains(i as usize)
}

/// Whether the position of node `i`, which is not the root, is its parent's
/// after the move into it, and that move was free there.
pub open spec fn moved(nodes: Seq<Node>, i: int) -> bool {
    let up = nodes[i].parent->0 as int;
    let action = nodes[i].action->0;
    &&& nodes[up].state.spec_is_available_action(action)
    &&& nodes[i].state.env.follows(nodes[up].state.env, action as int)
}

/// The shape of the tree: the root comes first and has neither parent nor
/// move; every other node stands after its parent and among its children;
/// children are listed in the order of their making, and no two of one
/// parent share a move.
pub open spec fn linked(nodes: Seq<Node>) -> bool {
    &&& nodes.len() >= 1
    &&& nodes[0].parent is None
    &&& nodes[0].action is None
    &&& forall|i: int| 0 < i < nodes.len() ==> #[trigger] hangs(nodes, i)
    &&& forall|i: int, k: int|
        0 <= i < nodes.len() && 0 <= k < nodes[i].children.len() ==> {
            &&& i < (#[trigger] child(nodes, i, k)) < nodes.len()
            &&& nodes[child(nodes, i, k)].parent == Some(i as usize)
        }
    &&& forall|i: int, j: int, k: int|
        0 <= i < nodes.len() && 0 <= j < k < nodes[i].children.len() ==> {
            &&& (#[trigger] child(nodes, i, j)) < (#[trigger] child(nodes, i, k))
            &&& nodes[child(nodes, i, j)].action != nodes[child(nodes, i, k)].action
        }
}

/// The game along the tree: every position is consistent, a child's position
/// is its parent's after the child's move, which was free there, and a
/// finished game has no children.
pub open spec fn played(nodes: Seq<Node>) -> bool {
    &&& forall|i: int|
        0 <= i < nodes.len() ==> {
            &&& (#[trigger] nodes[i]).state.wf()
            &&& nodes[i].state.spec_is_terminal() ==> nodes[i].children.len() == 0
        }
    &&& forall|i: int| 0 < i < nodes.len() ==> #[trigger] moved(nodes, i)
}

/// No value sum is larger than its visits allow.
pub open spec fn bounded(nodes: Seq<Node>) -> bool {
    forall|i: int|
        0 <= i < nodes.len() ==> -(#[trigger] nodes[i]).visit_count * OUTCOME_LIMIT <= nodes[i].value_sum
            <= nodes[i].visit_count * OUTCOME_LIMIT
}

/// Whether two trees have the same nodes but for their statistics and move
/// probabilities.
pub open spec fn same_shape(before: Seq<Node>, after: Seq<Node>) -> bool {
    &&& after.len() == before.len()
    &&& forall|i: int|
        0 <= i < before.len() ==> {
            &&& (#[trigger] after[i]).parent == before[i].parent
            &&& after[i].action == before[i].action
            &&& after[i].children == before[i].children
            &&& after[i].state.env == before[i].state.env
            &&& after[i].state.status == before[i].state.status
            &&& after[i].state.z == before[i].state.z
        }
}

/// Shape and game hold of a tree that has the nodes of one of which they
/// hold.
pub proof fn lemma_same_shape(before: Seq<Node>, after: Seq<Node>)
    requires
        linked(before),
        played(before),
        same_shape(before, after),
    ensures
        linked(after),
        played(after),
        parents_of(after) == parents_of(before),
{
    assert(parents_of(after) =~= parents_of(before));
    assert forall|i: int| 0 < i < after.len() implies #[trigger] hangs(after, i) by {
        assert(hangs(before, i));
    }
    assert forall|i: int| 0 < i < after.len() implies #[trigger] moved(after, i) by {
        assert(hangs(before, i));
        assert(moved(before, i));
    }
    assert forall|i: int, k: int| 0 <= i < after.len() && 0 <= k < after[i].children.len() implies {
        &&& i < (#[trigger] child(after, i, k)) < after.len()
        &&& after[child(after, i, k)].parent == Some(i as usize)
    } by {
        let c = child(before, i, k);
        assert(i < c < before.len());
        assert(after[c].parent == before[c].parent);
    }
    assert forall|i: int, j: int, k: int|
        0 <= i < after.len() && 0 <= j < k < after[i].children.len() implies {
        &&& (#[trigger] child(after, i, j)) < (#[trigger] child(after, i, k))
        &&& after[child(after, i, j)].action != after[child(after, i, k)].action
    } by {
        let a = child(before, i, j);
        let b = child(before, i, k);
        assert(a < b);
        assert(i < a < before.len() && i < b < before.len());
        assert(after[a].action == before[a].action);
        assert(after[b].action == before[b].action);
    }
    assert forall|i: int| 0 <= i < after.len() implies {
        &&& (#[trigger] after[i]).state.wf()
        &&& after[i].state.spec_is_terminal() ==> after[i].children.len() == 0
    } by {
        assert(before[i].state.wf());
    }
}

/// A node with a parent has a place among the parent's children.
pub proof fn lemma_child_place(nodes: Seq<Node>, up: int, i: int) -> (place: int)
    requires
        linked(nodes),
        0 <= i < nodes.len(),
        i <= usize::MAX,
        nodes[i].parent is Some,
        nodes[i].parent->0 == up,
    ensures
        0 <= place < nodes[up].children@.len(),
        child(nodes, up, place) == i,
{
    assert(hangs(nodes, i));
    let listed = nodes[up].children@;
    assert(listed.contains(i as usize));
    choose|place: int| 0 <= place < listed.len() && listed[place] == i as usize
}

/// A node on a path stands at or before the path's start.
pub proof fn lemma_on_path_below(parents: Seq<Option<usize>>, start: int, i: int)
    requires
        on_path(parents, start, i),
    ensures
        i <= start,
    decreases start,
{
    if start != i {
        lemma_on_path_below(parents, parents[start]->0 as int, i);
    }
}

/// Off the path a pass adds nothing; on it, its value with one sign or the
/// other.
pub proof fn lemma_share_range(parents: Seq<Option<usize>>, start: int, value: int, i: int)
    ensures
        !on_path(parents, start, i) ==> share(parents, start, value, i) == 0,
        on_path(parents, start, i) ==> share(parents, start, value, i) == value || share(
            parents,
            start,
            value,
            i,
        ) == -value,
    decreases start,
{
    if start != i && climbs(parents, start) {
        lemma_share_range(parents, parents[start]->0 as int, -value, i);
    }
}

/// A path that leads through a node leads through its parent.
pub proof fn lemma_path_up(parents: Seq<Option<usize>>, start: int, i: int)
    requires
        on_path(parents, start, i),
        climbs(parents, i),
    ensures
        on_path(parents, start, parents[i]->0 as int),
    decreases start,
{
    if start != i {
        lemma_path_up(parents, parents[start]->0 as int, i);
    } else {
        let up = parents[i]->0 as int;
        assert(on_path(parents, up, up));
    }
}

/// One step up the path turns the sign of what a pass adds.
pub proof fn lemma_share_step(parents: Seq<Option<usize>>, start: int, value: int, i: int)
    requires
        on_path(parents, start, i),
        climbs(parents, i),
    ensures
        share(parents, start, value, parents[i]->0 as int) == -share(parents, start, value, i),
    decreases start,
{
    if start != i {
        let up = parents[start]->0 as int;
        lemma_on_path_below(parents, up, i);
        lemma_share_step(parents, up, -value, i);
    } else {
        let up = parents[i]->0 as int;
        assert(share(parents, up, -value, up) == -value);
    }
}

/// A node added at the end leaves the paths of the others as they were.
pub proof fn lemma_path_push(parents: Seq<Option<usize>>, extra: Option<usize>, start: int, value: int, i: int)
    requires
        0 <= start < parents.len(),
    ensures
        on_path(parents.push(extra), start, i) == on_path(parents, start, i),
        share(parents.push(extra), start, value, i) == share(parents, start, value, i),
    decreases start,
{
    let longer = parents.push(extra);
    assert(longer[start] == parents[start]);
    if start != i && climbs(parents, start) {
        lemma_path_push(parents, extra, parents[start]->0 as int, -value, i);
    }
}

/// A node added at the end leaves the counts of the others as they were,
/// and has none itself.
pub proof fn lemma_passes_push(parents: Seq<Option<usize>>, extra: Option<usize>, passes: Seq<Pass>, i: int)
    requires
        forall|k: int| 0 <= k < passes.len() ==> (#[trigger] passes[k]).start < parents.len(),
    ensures
        visits(parents.push(extra), passes, i) == visits(parents, passes, i),
        credit(parents.push(extra), passes, i) == credit(parents, passes, i),
        i >= parents.len() ==> visits(parents, passes, i) == 0 && credit(parents, passes, i) == 0,
    decreases passes.len(),
{
    if passes.len() > 0 {
        let last = passes.last();
        lemma_passes_push(parents, extra, passes.drop_last(), i);
        lemma_path_push(parents, extra, last.start as int, last.value as int, i);
        if i >= parents.len() {
            if on_path(parents, last.start as int, i) {
                lemma_on_path_below(parents, last.start as int, i);
            }
            lemma_share_range(parents, last.start as int, last.value as int, i);
        }
    }
}

/// A node added at the end leaves what the others hold as it was, and
/// holds nothing itself.
pub proof fn lemma_held_push(parents: Seq<Option<usize>>, extra: Option<usize>, starts: Seq<usize>, i: int)
    requires
        forall|k: int| 0 <= k < starts.len() ==> (#[trigger] starts[k]) < parents.len(),
    ensures
        held(parents.push(extra), starts, i) == held(parents, starts, i),
        i >= parents.len() ==> held(parents, starts, i) == 0,
    decreases starts.len(),
{
    if starts.len() > 0 {
        lemma_held_push(parents, extra, starts.drop_last(), i);
        lemma_path_push(parents, extra, starts.last() as int, 0, i);
        if i >= parents.len() && on_path(parents, starts.last() as int, i) {
            lemma_on_path_below(parents, starts.last() as int, i);
        }
    }
}

/// Between nothing and the number of starts.
pub proof fn lemma_held_bound(parents: Seq<Option<usize>>, starts: Seq<usize>, i: int)
    ensures
        0 <= held(parents, starts, i) <= starts.len(),
    decreases starts.len(),
{
    if starts.len() > 0 {
        lemma_held_bound(parents, starts.drop_last(), i);
    }
}

/// One more start adds one on its path.
pub proof fn lemma_held_add(parents: Seq<Option<usize>>, starts: Seq<usize>, start: usize, i: int)
    ensures
        held(parents, starts.push(start), i) == held(parents, starts, i) + if on_path(
            parents,
            start as int,
            i,
        ) {
            1int
        } else {
            0int
        },
{
    assert(starts.push(start).drop_last() =~= starts);
}

/// Taking a start out takes one off its path.
pub proof fn lemma_held_remove(parents: Seq<Option<usize>>, starts: Seq<usize>, k: int, i: int)
    requires
        0 <= k < starts.len(),
    ensures
        held(parents, starts.remove(k), i) == held(parents, starts, i) - if on_path(
            parents,
            starts[k] as int,
            i,
        ) {
            1int
        } else {
            0int
        },
    decreases starts.len(),
{
    if k == starts.len() - 1 {
        assert(starts.remove(k) =~= starts.drop_last());
    } else {
        lemma_held_remove(parents, starts.drop_last(), k, i);
        assert(starts.remove(k).drop_last() =~= starts.drop_last().remove(k));
        assert(starts.remove(k).last() == starts.last());
    }
}

/// Whether `post` is a later stage of the tree `pre`: it has the nodes of
/// `pre`, each with the parent, move and position that it had, with no
/// fewer visits and with the children that it had before any new ones; and
/// the passes of `pre` before any new ones.
pub open spec fn extends(pre: SearchTree, post: SearchTree) -> bool {
    &&& pre.nodes.len() <= post.nodes.len()
    &&& pre.passes@.len() <= post.passes@.len()
    &&& post.passes@.take(pre.passes@.len() as int) == pre.passes@
    &&& forall|i: int|
        0 <= i < pre.nodes.len() ==> {
            &&& (#[trigger] post.nodes[i]).parent == pre.nodes[i].parent
            &&& post.nodes[i].action == pre.nodes[i].action
            &&& post.nodes[i].state.env == pre.nodes[i].state.env
            &&& post.nodes[i].state.status == pre.nodes[i].state.status
            &&& post.nodes[i].state.z == pre.nodes[i].state.z
            &&& post.nodes[i].visit_count >= pre.nodes[i].visit_count
            &&& pre.nodes[i].children@.len() <= post.nodes[i].children@.len()
            &&& post.nodes[i].children@.take(pre.nodes[i].children@.len() as int) == pre.nodes[i].children@
        }
}

/// A tree is a stage of itself.
pub proof fn lemma_extends_itself(tree: SearchTree)
    ensures
        extends(tree, tree),
{
    assert(tree.passes@.take(tree.passes@.len() as int) =~= tree.passes@);
    assert forall|i: int| 0 <= i < tree.nodes.len() implies (#[trigger] tree.nodes[i]).children@.take(
        tree.nodes[i].children@.len() as int,
    ) == tree.nodes[i].children@ by {
        assert(tree.nodes[i].children@.take(tree.nodes[i].children@.len() as int) =~= tree.nodes[i].children@);
    }
}

/// A later stage of a later stage is a later stage.
pub proof fn lemma_extends_on(first: SearchTree, second: SearchTree, third: SearchTree)
    requires
        extends(first, second),
        extends(second, third),
    ensures
        extends(first, third),
{
    assert(third.passes@.take(first.passes@.len() as int) =~= second.passes@.take(first.passes@.len() as int));
    assert forall|i: int| 0 <= i < first.nodes.len() implies (#[trigger] third.nodes[i]).children@.take(
        first.nodes[i].children@.len() as int,
    ) == first.nodes[i].children@ by {
        let a = first.nodes[i].children@;
        let b = second.nodes[i].children@;
        let c = third.nodes[i].children@;
        assert(second.nodes[i].parent == first.nodes[i].parent);
        assert(c.take(b.len() as int) == b);
        assert(c.take(a.len() as int) =~= b.take(a.len() as int));
    }
    assert forall|i: int| 0 <= i < first.nodes.len() implies (#[trigger] third.nodes[i]).visit_count
        >= first.nodes[i].visit_count by {
        assert(second.nodes[i].visit_count >= first.nodes[i].visit_count);
    }
    assert forall|i: int| 0 <= i < first.nodes.len() implies {
        &&& (#[trigger] third.nodes[i]).parent == first.nodes[i].parent
        &&& third.nodes[i].action == first.nodes[i].action
        &&& third.nodes[i].state.env == first.nodes[i].state.env
        &&& third.nodes[i].state.status == first.nodes[i].state.status
        &&& third.nodes[i].state.z == first.nodes[i].state.z
        &&& first.nodes[i].children@.len() <= third.nodes[i].children@.len()
    } by {
        assert(second.nodes[i].parent == first.nodes[i].parent);
    }
}

/// Trees with the same passes, of which one has the nodes of the other but
/// for statistics and move probabilities, and no fewer visits, are stages
/// of one tree.
pub proof fn lemma_extends_same_shape(pre: SearchTree, post: SearchTree)
    requires
        same_shape(pre.nodes@, post.nodes@),
        pre.passes@.len() <= post.passes@.len(),
        post.passes@.take(pre.passes@.len() as int) == pre.passes@,
        forall|i: int| 0 <= i < pre.nodes.len() ==> (#[trigger] post.nodes[i]).visit_count >= pre.nodes[i].visit_count,
    ensures
        extends(pre, post),
{
    assert forall|i: int| 0 <= i < pre.nodes.len() implies (#[trigger] post.nodes[i]).children@.take(
        pre.nodes[i].children@.len() as int,
    ) == pre.nodes[i].children@ by {
        assert(post.nodes[i].children == pre.nodes[i].children);
        assert(pre.nodes[i].children@.take(pre.nodes[i].children@.len() as int) =~= pre.nodes[i].children@);
    }
}

/// A search tree over positions of the board game.
pub struct SearchTree {
    /// The root first, every other node after its parent.
    pub nodes: Vec<Node>,
    /// The leaves that selection has reached and that are not settled yet.
    pub selected: Vec<usize>,
    /// The new nodes that wait for their evaluation, oldest first.
    pub pending: Vec<Request>,
    /// Every backpropagation pass so far.
    pub passes: Ghost<Seq<Pass>>,
}

impl SearchTree {
    /// The parent of every node.
    pub open spec fn parents(&self) -> Seq<Option<usize>> {
        parents_of(self.nodes@)
    }

    /// The statistics: a node's visit count is the number of passes through
    /// it, its value sum is what they added, and its virtual loss is the
    /// number of unfinished simulations whose way leads through it.
    pub open spec fn counted(&self) -> bool {
        &&& self.load() <= u64::MAX
        &&& forall|k: int| 0 <= k < self.passes@.len() ==> (#[trigger] self.passes@[k]).start < self.nodes.len()
        &&& forall|k: int| 0 <= k < self.selected.len() ==> (#[trigger] self.selected[k]) < self.nodes.len()
        &&& forall|k: int|
            0 <= k < self.pending.len() ==> {
                &&& (#[trigger] self.pending[k]).node < self.nodes.len()
                &&& self.pending[k].terminal_reward == spec_terminal_reward(
                    self.nodes[self.pending[k].node as int].state.status,
                )
            }
        &&& forall|i: int|
            0 <= i < self.nodes.len() ==> {
                &&& (#[trigger] self.nodes[i]).visit_count == visits(self.parents(), self.passes@, i)
                &&& self.nodes[i].value_sum == credit(self.parents(), self.passes@, i)
                &&& self.nodes[i].virtual_loss == held(self.parents(), self.selected@, i) + held(
                    self.parents(),
                    request_nodes(self.pending@),
                    i,
                )
            }
    }

    /// The passes that went up this tree and the simulations that are
    /// unfinished in it, counted together.
    pub open spec fn load(&self) -> int {
        self.passes@.len() + self.selected.len() + self.pending.len()
    }

    /// All that holds of a tree between any two calls.
    pub open spec fn wf(&self) -> bool {
        &&& linked(self.nodes@)
        &&& played(self.nodes@)
        &&& bounded(self.nodes@)
        &&& self.counted()
    }

    /// A tree of one node, the root, at the position `state`.
    pub fn new(state: BoardState) -> (tree: SearchTree)
        requires
            state.wf(),
        ensures
            tree.wf(),
            tree.nodes.len() == 1,
            tree.nodes[0].state == state,
            tree.nodes[0].visit_count == 0,
            tree.nodes[0].value_sum == 0,
            tree.nodes[0].virtual_loss == 0,
            tree.nodes[0].prior == crate::score::ONE,
            tree.nodes[0].children.len() == 0,
            tree.selected.len() == 0,
            tree.pending.len() == 0,
            tree.passes@.len() == 0,
    {
        let root = Node {
            visit_count: 0,
            value_sum: 0,
            prior: crate::score::ONE,
            virtual_loss: 0,
            action: None,
            state,
            children: Vec::new(),
            parent: None,
        };
        let mut nodes: Vec<Node> = Vec::new();
        nodes.push(root);
        let tree = SearchTree { nodes, selected: Vec::new(), pending: Vec::new(), passes: Ghost(Seq::empty()) };
        assert(request_nodes(tree.pending@) =~= Seq::<usize>::empty());
        tree
    }

    /// Whether the counters leave room for `attempts` more simulations.
    pub fn has_room(&self, attempts: usize) -> (room: bool)
        requires
            self.wf(),
        ensures
            room == (self.load() + attempts <= u64::MAX),
    {
        proof {
            self.lemma_root_visits(self.passes@, 0);
        }
        let load: u128 = self.nodes[0].visit_count as u128 + self.selected.len() as u128
            + self.pending.len() as u128;
        load + attempts as u128 <= u64::MAX as u128
    }

    /// Every path ends at the root.
    pub proof fn lemma_root_on_path(&self, start: int)
        requires
            linked(self.nodes@),
            0 <= start < self.nodes.len(),
        ensures
            on_path(self.parents(), start, 0),
        decreases start,
    {
        if start > 0 {
            assert(hangs(self.nodes@, start));
            let up = self.nodes[start].parent->0 as int;
            assert(self.parents()[start] == self.nodes[start].parent);
            self.lemma_root_on_path(up);
        }
    }

    /// No node was visited more often than the root.
    pub proof fn lemma_root_visits(&self, passes: Seq<Pass>, i: int)
        requires
            linked(self.nodes@),
            forall|k: int| 0 <= k < passes.len() ==> (#[trigger] passes[k]).start < self.nodes.len(),
        ensures
            0 <= visits(self.parents(), passes, i) <= visits(self.parents(), passes, 0) == passes.len(),
        decreases passes.len(),
    {
        if passes.len() > 0 {
            self.lemma_root_visits(passes.drop_last(), i);
            self.lemma_root_on_path(passes.last().start as int);
        }
    }

    /// Backpropagation: adds a visit to `node` and to each node above it,
    /// and adds `value` to their value sums, with the sign turned at each
    /// step up.
    pub fn propagate(&mut self, node: usize, value: i32)
        requires
            old(self).wf(),
            node < old(self).nodes.len(),
            old(self).load() < u64::MAX,
        ensures
            final(self).wf(),
            extends(*old(self), *final(self)),
            final(self).passes@ == old(self).passes@.push(Pass { start: node, value }),
            final(self).selected@ == old(self).selected@,
            final(self).pending@ == old(self).pending@,
            final(self).nodes.len() == old(self).nodes.len(),
            forall|i: int|
                0 <= i < old(self).nodes.len() ==> {
                    let before = old(self).nodes[i];
                    let after = #[trigger] final(self).nodes[i];
                    &&& after.visit_count == before.visit_count + if on_path(old(self).parents(), node as int, i) {
                        1int
                    } else {
                        0int
                    }
                    &&& after.value_sum == before.value_sum + share(
                        old(self).parents(),
                        node as int,
                        value as int,
                        i,
                    )
                    &&& after.prior == before.prior
                    &&& after.virtual_loss == before.virtual_loss
                    &&& after.action == before.action
                    &&& after.state == before.state
                    &&& after.children == before.children
                    &&& after.parent == before.parent
                },
    {
        let ghost parents = self.parents();
        let ghost before = self.nodes@;
        let mut current: usize = node;
        let mut signed: i128 = value as i128;
        let mut done = false;
        let ghost mut bound: int = node as int;
        proof {
            assert forall|i: int| on_path(parents, node as int, i) implies i <= node by {
                lemma_on_path_below(parents, node as int, i);
            }
        }
        while !done
            invariant
                old(self).wf(),
                before == old(self).nodes@,
                parents == parents_of(before),
                node < before.len(),
                self.nodes.len() == before.len(),
                self.selected@ == old(self).selected@,
                self.pending@ == old(self).pending@,
                self.passes@ == old(self).passes@,
                old(self).load() < u64::MAX,
                current < before.len(),
                !done ==> bound == current && on_path(parents, node as int, current as int),
                done ==> bound == -1,
                !done ==> signed == share(parents, node as int, value as int, current as int),
                forall|i: int|
                    0 <= i < before.len() ==> {
                        let touched = on_path(parents, node as int, i) && i > bound;
                        &&& (#[trigger] self.nodes[i]).visit_count == before[i].visit_count + if touched {
                            1int
                        } else {
                            0int
                        }
                        &&& self.nodes[i].value_sum == before[i].value_sum + if touched {
                            share(parents, node as int, value as int, i)
                        } else {
                            0int
                        }
                        &&& self.nodes[i].prior == before[i].prior
                        &&& self.nodes[i].virtual_loss == before[i].virtual_loss
                        &&& self.nodes[i].action == before[i].action
                        &&& self.nodes[i].state == before[i].state
                        &&& self.nodes[i].children == before[i].children
                        &&& self.nodes[i].parent == before[i].parent
                    },
            decreases bound + 1,
        {
            let ghost at = current as int;
            proof {
                old(self).lemma_root_visits(old(self).passes@, current as int);
                lemma_share_range(parents, node as int, value as int, current as int);
                assert(parents[current as int] == before[current as int].parent);
                if current > 0 {
                    assert(hangs(before, current as int));
                }
            }
            let visit_count = self.nodes[current].visit_count;
            let value_sum = self.nodes[current].value_sum;
            assert(-(visit_count + 1) * OUTCOME_LIMIT <= value_sum + signed <= (visit_count + 1)
                * OUTCOME_LIMIT) by (nonlinear_arith)
                requires
                    -visit_count * OUTCOME_LIMIT <= value_sum <= visit_count * OUTCOME_LIMIT,
                    -OUTCOME_LIMIT <= signed <= OUTCOME_LIMIT,
                    0 <= visit_count,
                    OUTCOME_LIMIT == 2_147_483_648,
            ;
            assert(visit_count * OUTCOME_LIMIT <= 0xffff_ffff_ffff_ffff * 2_147_483_648) by (nonlinear_arith)
                requires
                    0 <= visit_count <= 0xffff_ffff_ffff_ffff,
                    OUTCOME_LIMIT == 2_147_483_648,
            ;
            self.nodes[current].visit_count = visit_count + 1;
            self.nodes[current].value_sum = value_sum + signed;
            match self.nodes[current].parent {
                Some(up) => {
                    proof {
                        lemma_share_step(parents, node as int, value as int, current as int);
                        lemma_path_up(parents, node as int, current as int);
                        bound = up as int;
                    }
                    current = up;
                    signed = -signed;
                },
                None => {
                    proof {
                        bound = -1;
                    }
                    done = true;
                },
            }
            proof {
                assert forall|i: int| 0 <= i < before.len() && on_path(parents, node as int, i) && i
                    > bound implies i >= at by {
                    if i < at {
                        Self::lemma_path_gap(parents, node as int, at, i);
                    }
                }
            }
        }
        proof {
            let pass = Pass { start: node, value };
            assert(parents_of(self.nodes@) =~= parents);
            assert(old(self).passes@.push(pass).drop_last() =~= old(self).passes@);
            self.passes@ = old(self).passes@.push(pass);
            assert forall|i: int| 0 <= i < self.nodes.len() implies -(#[trigger] self.nodes[i]).visit_count
                * OUTCOME_LIMIT <= self.nodes[i].value_sum <= self.nodes[i].visit_count
                * OUTCOME_LIMIT by {
                lemma_share_range(parents, node as int, value as int, i);
                let n = before[i].visit_count as int;
                let w = before[i].value_sum as int;
                let s = share(parents, node as int, value as int, i);
                if on_path(parents, node as int, i) {
                    assert(-(n + 1) * OUTCOME_LIMIT <= w + s <= (n + 1) * OUTCOME_LIMIT) by (nonlinear_arith)
                        requires
                            -n * OUTCOME_LIMIT <= w <= n * OUTCOME_LIMIT,
                            -OUTCOME_LIMIT <= s <= OUTCOME_LIMIT,
                            OUTCOME_LIMIT == 2_147_483_648,
                    ;
                }
            }
            lemma_same_shape(before, self.nodes@);
            assert(self.passes@.take(old(self).passes@.len() as int) =~= old(self).passes@);
            lemma_extends_same_shape(*old(self), *self);
            assert forall|i: int| 0 <= i < self.nodes.len() implies (#[trigger] self.nodes[i]).value_sum
                == before[i].value_sum + share(parents, node as int, value as int, i) by {
                lemma_share_range(parents, node as int, value as int, i);
            }
            assert(self.counted());
        }
    }

    /// Between a node of a path and its parent the path has no node.
    pub proof fn lemma_path_gap(parents: Seq<Option<usize>>, start: int, at: int, i: int)
        requires
            on_path(parents, start, at),
            on_path(parents, start, i),
            i < at,
        ensures
            climbs(parents, at),
            i <= parents[at]->0,
        decreases start,
    {
        if start == at {
            lemma_on_path_below(parents, parents[start]->0 as int, i);
        } else {
            let up = parents[start]->0 as int;
            if i == start {
                lemma_on_path_below(parents, up, at);
            } else {
                Self::lemma_path_gap(parents, up, at, i);
            }
        }
    }
}

} // verus!
