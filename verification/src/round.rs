//! What one tree does in a round: a batch of simulations before the
//! evaluator is asked, and the arrival of its answers after.

use vstd::prelude::*;
use crate::environment::spec_encode;
use crate::evaluate::{evaluated, spec_reward};
use crate::simulate::simulated;
use crate::tree::{extends, lemma_extends_itself, lemma_extends_on, Node, Pass, Request, SearchTree};

verus! {

/// What `times` simulations, one after another, do to a tree that is well
/// formed before each of them.
pub open spec fn simulated_times<F: Fn(&Vec<usize>) -> Option<usize>>(
    pre: SearchTree,
    post: SearchTree,
    times: nat,
    c: int,
    sampler: &F,
) -> bool
    decreases times,
{
    if times == 0 {
        post == pre
    } else {
        exists|mid: SearchTree, request: Option<Request>|
            simulated_times(pre, mid, (times - 1) as nat, c, sampler) && mid.wf() && #[trigger] simulated(
                mid,
                post,
                c,
                sampler,
                request,
            )
    }
}

/// What the arrival of one evaluation does to a tree: the oldest pending
/// request leaves the pending ones, and its node is evaluated with `policy`
/// and with the outcome of the game where it is over there, else `value`.
pub open spec fn completed(pre: SearchTree, post: SearchTree, policy: Seq<u32>, value: i32) -> bool {
    &&& pre.pending.len() > 0
    &&& post.pending@ == pre.pending@.remove(0)
    &&& post.selected@ == pre.selected@
    &&& post.passes@ == pre.passes@.push(
        Pass { start: pre.pending[0].node, value: spec_reward(pre.pending[0], value) },
    )
    &&& evaluated(
        pre.nodes@,
        post.nodes@,
        pre.pending[0].node as int,
        policy,
        spec_reward(pre.pending[0], value) as int,
    )
}

/// What the arrival of `times` evaluations does to a tree, the first for
/// its oldest pending request and so on, where the evaluations of this
/// tree stand in `policies` and `values` from place `from` on.
pub open spec fn completed_times(
    pre: SearchTree,
    post: SearchTree,
    policies: Seq<Vec<u32>>,
    values: Seq<i32>,
    from: int,
    times: nat,
) -> bool
    decreases times,
{
    if times == 0 {
        post == pre
    } else {
        exists|mid: SearchTree|
            completed_times(pre, mid, policies, values, from, (times - 1) as nat) && #[trigger] completed(
                mid,
                post,
                policies[from + times - 1]@,
                values[from + times - 1],
            )
    }
}

/// What the evaluator is shown of node `i`: its board in two planes, seen
/// by the player who moved into it.
pub open spec fn spec_input(nodes: Seq<Node>, i: int) -> Seq<u8> {
    spec_encode(nodes[i].state.env.board@, nodes[i].state.env.turn.spec_opponent())
}

impl SearchTree {
    /// Runs `batch_size` simulations and returns the requests that they
    /// made, oldest first; these have joined the pending ones.
    pub fn run_simulations<F: Fn(&Vec<usize>) -> Option<usize>>(
        &mut self,
        batch_size: usize,
        c_puct: u32,
        sampler: &F,
    ) -> (requests: Vec<Request>)
        requires
            old(self).wf(),
            old(self).load() + batch_size <= u64::MAX,
            forall|candidates: &Vec<usize>| sampler.requires((candidates,)),
        ensures
            final(self).wf(),
            extends(*old(self), *final(self)),
            final(self).load() <= old(self).load() + batch_size,
            final(self).selected@ == old(self).selected@,
            final(self).pending@ == old(self).pending@ + requests@,
            requests.len() <= batch_size,
            simulated_times(*old(self), *final(self), batch_size as nat, c_puct as int, sampler),
    {
        let mut requests: Vec<Request> = Vec::new();
        let mut done: usize = 0;
        proof {
            lemma_extends_itself(*self);
            assert(self.pending@ + requests@ =~= self.pending@);
        }
        while done < batch_size
            invariant
                self.wf(),
                old(self).load() + batch_size <= u64::MAX,
                forall|candidates: &Vec<usize>| sampler.requires((candidates,)),
                done <= batch_size,
                extends(*old(self), *self),
                self.load() <= old(self).load() + done,
                self.selected@ == old(self).selected@,
                self.pending@ == old(self).pending@ + requests@,
                requests.len() <= done,
                simulated_times(*old(self), *self, done as nat, c_puct as int, sampler),
            decreases batch_size - done,
        {
            let ghost mid = *self;
            let ghost earlier = requests@;
            let request = self.simulate(c_puct, sampler);
            match request {
                Some(made) => {
                    requests.push(made);
                    assert(self.pending@ =~= old(self).pending@ + requests@);
                },
                None => {},
            }
            proof {
                lemma_extends_on(*old(self), mid, *self);
            }
            done += 1;
        }
        requests
    }

    /// What the evaluator is shown of each pending request, oldest first.
    pub fn encode_pending(&self) -> (inputs: Vec<Vec<u8>>)
        requires
            self.wf(),
        ensures
            inputs.len() == self.pending.len(),
            forall|k: int|
                0 <= k < self.pending.len() ==> (#[trigger] inputs[k])@ == spec_input(
                    self.nodes@,
                    self.pending[k].node as int,
                ),
    {
        let mut inputs: Vec<Vec<u8>> = Vec::new();
        let mut k: usize = 0;
        while k < self.pending.len()
            invariant
                self.wf(),
                k <= self.pending.len(),
                inputs.len() == k,
                forall|j: int|
                    0 <= j < k ==> (#[trigger] inputs[j])@ == spec_input(self.nodes@, self.pending[j].node as int),
            decreases self.pending.len() - k,
        {
            let node = self.pending[k].node;
            let env = &self.nodes[node].state.env;
            inputs.push(env.encode_board(env.turn.opponent()));
            k += 1;
        }
        inputs
    }

    /// Hands each pending request its evaluation, the oldest the one at
    /// place `from` of `policies` and `values`, the next the one after, and
    /// returns the place after the last one used.
    pub fn complete_all(&mut self, policies: &Vec<Vec<u32>>, values: &Vec<i32>, from: usize) -> (next: usize)
        requires
            old(self).wf(),
            from + old(self).pending.len() <= policies.len(),
            policies.len() == values.len(),
            forall|k: int| 0 <= k < policies.len() ==> (#[trigger] policies[k]).len() == 361,
        ensures
            final(self).wf(),
            extends(*old(self), *final(self)),
            final(self).load() == old(self).load(),
            final(self).selected@ == old(self).selected@,
            final(self).pending.len() == 0,
            next == from + old(self).pending.len(),
            completed_times(*old(self), *final(self), policies@, values@, from as int, old(self).pending.len() as nat),
    {
        let total = self.pending.len();
        let mut done: usize = 0;
        proof {
            lemma_extends_itself(*self);
            assert(self.pending@.skip(0) =~= self.pending@);
        }
        while done < total
            invariant
                self.wf(),
                total == old(self).pending.len(),
                from + total <= policies.len(),
                policies.len() == values.len(),
                forall|k: int| 0 <= k < policies.len() ==> (#[trigger] policies[k]).len() == 361,
                done <= total,
                extends(*old(self), *self),
                self.load() == old(self).load(),
                self.selected@ == old(self).selected@,
                self.pending@ == old(self).pending@.skip(done as int),
                completed_times(*old(self), *self, policies@, values@, from as int, done as nat),
            decreases total - done,
        {
            let ghost mid = *self;
            let slot = from + done;
            self.complete(&policies[slot], values[slot]);
            proof {
                lemma_extends_on(*old(self), mid, *self);
                assert(self.pending@ =~= old(self).pending@.skip(done + 1));
                let times = (done + 1) as nat;
                assert(completed(mid, *self, policies@[from + times - 1]@, values@[from + times - 1]));
                assert(completed_times(*old(self), mid, policies@, values@, from as int, (times - 1) as nat));
                assert(completed_times(*old(self), *self, policies@, values@, from as int, times));
            }
            done += 1;
        }
        from + total
    }
}

} // verus!
