//! The executor: it drives many trees round by round, asks the evaluator
//! once per round for all the nodes that wait, and hands the answers back.

use vstd::prelude::*;
use crate::round::{completed_times, simulated_times, spec_input};
use crate::sample::pick_at_random;
use crate::tree::{extends, lemma_extends_itself, lemma_extends_on, SearchTree};

verus! {

/// What the evaluator answers for a batch: for each place of the batch the
/// probability of every move and an estimate of the outcome, in `ONE`-ths.
pub struct Evaluation {
    pub policies: Vec<Vec<u32>>,
    pub values: Vec<i32>,
}

impl Evaluation {
    /// Whether this answers a batch of `slots` places: a probability for
    /// each of the 361 moves and one estimate for every place.
    pub open spec fn fits(&self, slots: int) -> bool {
        &&& self.policies.len() == slots
        &&& self.values.len() == slots
        &&& forall|k: int| 0 <= k < self.policies.len() ==> (#[trigger] self.policies[k]).len() == 361
    }

    /// Whether this answers a batch of `slots` places.
    pub fn answers(&self, slots: usize) -> (fit: bool)
        ensures
            fit == self.fits(slots as int),
    {
        if self.policies.len() != slots || self.values.len() != slots {
            return false;
        }
        let mut k: usize = 0;
        while k < self.policies.len()
            invariant
                k <= self.policies.len(),
                forall|j: int| 0 <= j < k ==> (#[trigger] self.policies[j]).len() == 361,
            decreases self.policies.len() - k,
        {
            if self.policies[k].len() != 361 {
                return false;
            }
            k += 1;
        }
        true
    }
}

/// The number of requests that wait in `trees`.
pub open spec fn batch_len(trees: Seq<SearchTree>) -> nat
    decreases trees.len(),
{
    if trees.len() == 0 {
        0
    } else {
        batch_len(trees.drop_last()) + trees.last().pending@.len()
    }
}

/// What the evaluator is shown of the requests that wait in `tree`, oldest
/// first.
pub open spec fn tree_inputs(tree: SearchTree) -> Seq<Seq<u8>> {
    Seq::new(tree.pending@.len(), |k: int| spec_input(tree.nodes@, tree.pending[k].node as int))
}

/// The batch: what the evaluator is shown of the requests that wait in
/// `trees`, tree by tree, and oldest first within a tree.
pub open spec fn spec_batch(trees: Seq<SearchTree>) -> Seq<Seq<u8>>
    decreases trees.len(),
{
    if trees.len() == 0 {
        Seq::empty()
    } else {
        spec_batch(trees.drop_last()) + tree_inputs(trees.last())
    }
}

/// Whether `inputs` is the batch of `trees`.
pub open spec fn shows(trees: Seq<SearchTree>, inputs: &Vec<Vec<u8>>) -> bool {
    &&& inputs.len() == spec_batch(trees).len()
    &&& forall|k: int| 0 <= k < inputs.len() ==> (#[trigger] inputs[k])@ == spec_batch(trees)[k]
}

/// The batch has a place for each request that waits.
pub proof fn lemma_batch_len(trees: Seq<SearchTree>)
    ensures
        spec_batch(trees).len() == batch_len(trees),
    decreases trees.len(),
{
    if trees.len() > 0 {
        lemma_batch_len(trees.drop_last());
    }
}

/// The requests of the first `t + 1` trees are those of the first `t` and
/// those of tree `t`, and no more than those of all trees.
pub proof fn lemma_batch_take(trees: Seq<SearchTree>, t: int)
    requires
        0 <= t < trees.len(),
    ensures
        batch_len(trees.take(t + 1)) == batch_len(trees.take(t)) + trees[t].pending.len(),
        spec_batch(trees.take(t + 1)) == spec_batch(trees.take(t)) + tree_inputs(trees[t]),
        batch_len(trees.take(t + 1)) <= batch_len(trees),
    decreases trees.len() - t,
{
    assert(trees.take(t + 1).drop_last() =~= trees.take(t));
    if t + 1 < trees.len() {
        lemma_batch_take(trees, t + 1);
    } else {
        assert(trees.take(t + 1) =~= trees);
    }
}

/// What the simulations of a round do to the trees: `batch_size` of them
/// to each.
pub open spec fn collected<F: Fn(&Vec<usize>) -> Option<usize>>(
    pre: Seq<SearchTree>,
    post: Seq<SearchTree>,
    batch_size: nat,
    c: int,
    sampler: &F,
) -> bool {
    &&& post.len() == pre.len()
    &&& forall|t: int| 0 <= t < pre.len() ==> simulated_times(pre[t], #[trigger] post[t], batch_size, c, sampler)
}

/// What the answers of the evaluator do to the trees: each request that
/// waits gets the answer at its place of the batch.
pub open spec fn applied(pre: Seq<SearchTree>, post: Seq<SearchTree>, evaluation: Evaluation) -> bool {
    &&& post.len() == pre.len()
    &&& forall|t: int|
        0 <= t < pre.len() ==> completed_times(
            pre[t],
            #[trigger] post[t],
            evaluation.policies@,
            evaluation.values@,
            batch_len(pre.take(t)) as int,
            pre[t].pending.len() as nat,
        )
}

/// What the second half of a round does to the trees `mid` that the
/// simulations left: nothing where no request waits, and the evaluator is
/// not asked; else the evaluator is asked once, for the whole batch, and
/// its answers are applied, or its failure is returned and the trees stay
/// as they are.
pub open spec fn asked<G: Fn(&Vec<Vec<u8>>) -> Result<Evaluation, E>, E>(
    mid: Seq<SearchTree>,
    post: Seq<SearchTree>,
    evaluator: &G,
    result: Result<(), E>,
) -> bool {
    if batch_len(mid) == 0 {
        post == mid && result is Ok
    } else {
        exists|inputs: &Vec<Vec<u8>>, answer: Result<Evaluation, E>|
            {
                &&& shows(mid, inputs)
                &&& #[trigger] evaluator.ensures((inputs,), answer)
                &&& match answer {
                    Ok(evaluation) => result is Ok && applied(mid, post, evaluation),
                    Err(error) => result == Err::<(), E>(error) && post == mid,
                }
            }
    }
}

/// What one round does to the trees.
pub open spec fn round_done<
    F: Fn(&Vec<usize>) -> Option<usize>,
    G: Fn(&Vec<Vec<u8>>) -> Result<Evaluation, E>,
    E,
>(
    pre: Seq<SearchTree>,
    post: Seq<SearchTree>,
    batch_size: nat,
    c: int,
    sampler: &F,
    evaluator: &G,
    result: Result<(), E>,
) -> bool {
    exists|mid: Seq<SearchTree>| #[trigger]
        collected(pre, mid, batch_size, c, sampler) && all_wf(mid) && asked(mid, post, evaluator, result)
}

/// Whether every tree is well formed.
pub open spec fn all_wf(trees: Seq<SearchTree>) -> bool {
    forall|t: int| 0 <= t < trees.len() ==> (#[trigger] trees[t]).wf()
}

/// Whether every tree is well formed and has room for `attempts` more
/// simulations.
pub open spec fn ready(trees: Seq<SearchTree>, attempts: int) -> bool {
    forall|t: int| 0 <= t < trees.len() ==> (#[trigger] trees[t]).wf() && trees[t].load() + attempts <= u64::MAX
}

/// Whether `post` holds a later stage of each tree of `pre`, well formed,
/// with the same selected leaves and with at most `attempts` more passes
/// and unfinished simulations.
pub open spec fn advanced(pre: Seq<SearchTree>, post: Seq<SearchTree>, attempts: int) -> bool {
    &&& post.len() == pre.len()
    &&& forall|t: int|
        0 <= t < pre.len() ==> {
            &&& (#[trigger] post[t]).wf()
            &&& extends(pre[t], post[t])
            &&& post[t].selected@ == pre[t].selected@
            &&& post[t].load() <= pre[t].load() + attempts
        }
}

/// Whether no request waits in any tree.
pub open spec fn idle(trees: Seq<SearchTree>) -> bool {
    forall|t: int| 0 <= t < trees.len() ==> (#[trigger] trees[t]).pending.len() == 0
}

/// Whether a failure that `result` holds is one that `evaluator` returned.
pub open spec fn refused<G: Fn(&Vec<Vec<u8>>) -> Result<Evaluation, E>, E>(
    evaluator: &G,
    result: Result<(), E>,
) -> bool {
    result is Err ==> exists|inputs: &Vec<Vec<u8>>| #[trigger]
        evaluator.ensures((inputs,), Err::<Evaluation, E>(result->Err_0))
}

/// Where no request waits in the trees, none waits in any of them.
pub proof fn lemma_empty_batch(trees: Seq<SearchTree>)
    requires
        batch_len(trees) == 0,
    ensures
        idle(trees),
    decreases trees.len(),
{
    if trees.len() > 0 {
        lemma_empty_batch(trees.drop_last());
        assert forall|t: int| 0 <= t < trees.len() implies (#[trigger] trees[t]).pending.len() == 0 by {
            if t < trees.len() - 1 {
                assert(trees.drop_last()[t] == trees[t]);
            }
        }
    }
}

/// The executor.
pub struct ParallelMCTSExecutor {
    /// The exploration constant of the selection score, in `ONE`-ths.
    pub c_puct: u32,
}

impl ParallelMCTSExecutor {
    /// The exploration constant that a new executor has: 1.0.
    pub const C_PUCT: u32 = 16_777_216;

    /// An executor with the exploration constant `C_PUCT`.
    pub fn new() -> (executor: Self)
        ensures
            executor.c_puct == Self::C_PUCT,
    {
        Self { c_puct: Self::C_PUCT }
    }

    /// The first half of a round: `batch_size` simulations in each tree.
    pub fn collect<F: Fn(&Vec<usize>) -> Option<usize>>(
        &self,
        trees: &mut Vec<SearchTree>,
        batch_size: usize,
        sampler: &F,
    )
        requires
            ready(old(trees)@, batch_size as int),
            forall|candidates: &Vec<usize>| sampler.requires((candidates,)),
        ensures
            advanced(old(trees)@, final(trees)@, batch_size as int),
            collected(old(trees)@, final(trees)@, batch_size as nat, self.c_puct as int, sampler),
    {
        let mut t: usize = 0;
        proof {
            assert forall|u: int| 0 <= u < trees.len() implies extends(trees[u], #[trigger] trees[u]) by {
                lemma_extends_itself(trees[u]);
            }
        }
        while t < trees.len()
            invariant
                ready(old(trees)@, batch_size as int),
                forall|candidates: &Vec<usize>| sampler.requires((candidates,)),
                trees.len() == old(trees).len(),
                t <= trees.len(),
                forall|u: int| t <= u < trees.len() ==> (#[trigger] trees[u]) == old(trees)[u],
                forall|u: int|
                    0 <= u < t ==> {
                        &&& (#[trigger] trees[u]).wf()
                        &&& extends(old(trees)[u], trees[u])
                        &&& trees[u].selected@ == old(trees)[u].selected@
                        &&& trees[u].load() <= old(trees)[u].load() + batch_size
                        &&& simulated_times(old(trees)[u], trees[u], batch_size as nat, self.c_puct as int, sampler)
                    },
            decreases trees.len() - t,
        {
            trees[t].run_simulations(batch_size, self.c_puct, sampler);
            t += 1;
        }
    }

    /// The batch: what the evaluator is shown of the requests that wait,
    /// tree by tree.
    pub fn encode_batch(&self, trees: &Vec<SearchTree>) -> (inputs: Vec<Vec<u8>>)
        requires
            forall|t: int| 0 <= t < trees.len() ==> (#[trigger] trees[t]).wf(),
        ensures
            shows(trees@, &inputs),
            inputs.len() == batch_len(trees@),
    {
        let mut inputs: Vec<Vec<u8>> = Vec::new();
        let mut t: usize = 0;
        assert(trees@.take(0) =~= Seq::<SearchTree>::empty());
        while t < trees.len()
            invariant
                forall|u: int| 0 <= u < trees.len() ==> (#[trigger] trees[u]).wf(),
                t <= trees.len(),
                shows(trees@.take(t as int), &inputs),
            decreases trees.len() - t,
        {
            let mut part = trees[t].encode_pending();
            let ghost earlier = inputs@;
            let ghost added = part@;
            inputs.append(&mut part);
            proof {
                lemma_batch_take(trees@, t as int);
                let wanted = spec_batch(trees@.take(t + 1));
                assert(inputs@ =~= earlier + added);
                assert forall|k: int| 0 <= k < inputs.len() implies (#[trigger] inputs[k])@ == wanted[k] by {
                    if k >= earlier.len() {
                        assert(inputs[k] == added[k - earlier.len()]);
                    } else {
                        assert(inputs[k] == earlier[k]);
                    }
                }
            }
            t += 1;
        }
        proof {
            assert(trees@.take(trees.len() as int) =~= trees@);
            lemma_batch_len(trees@);
        }
        inputs
    }

    /// The second half of a round: each request that waits gets the answer
    /// at its place of the batch.
    pub fn apply(&self, trees: &mut Vec<SearchTree>, evaluation: &Evaluation)
        requires
            ready(old(trees)@, 0),
            evaluation.fits(batch_len(old(trees)@) as int),
        ensures
            advanced(old(trees)@, final(trees)@, 0),
            applied(old(trees)@, final(trees)@, *evaluation),
            forall|t: int| 0 <= t < final(trees).len() ==> (#[trigger] final(trees)[t]).pending.len() == 0,
    {
        let mut t: usize = 0;
        let mut from: usize = 0;
        assert(trees@.take(0) =~= Seq::<SearchTree>::empty());
        while t < trees.len()
            invariant
                ready(old(trees)@, 0),
                evaluation.fits(batch_len(old(trees)@) as int),
                trees.len() == old(trees).len(),
                t <= trees.len(),
                from == batch_len(old(trees)@.take(t as int)),
                forall|u: int| t <= u < trees.len() ==> (#[trigger] trees[u]) == old(trees)[u],
                forall|u: int|
                    0 <= u < t ==> {
                        &&& (#[trigger] trees[u]).wf()
                        &&& extends(old(trees)[u], trees[u])
                        &&& trees[u].selected@ == old(trees)[u].selected@
                        &&& trees[u].load() <= old(trees)[u].load()
                        &&& trees[u].pending.len() == 0
                        &&& completed_times(
                            old(trees)[u],
                            trees[u],
                            evaluation.policies@,
                            evaluation.values@,
                            batch_len(old(trees)@.take(u)) as int,
                            old(trees)[u].pending.len() as nat,
                        )
                    },
            decreases trees.len() - t,
        {
            proof {
                lemma_batch_take(old(trees)@, t as int);
            }
            from = trees[t].complete_all(&evaluation.policies, &evaluation.values, from);
            t += 1;
        }
    }

    /// One round: the simulations in every tree, then, where a request
    /// waits, one call of `evaluator` for the whole batch, whose answers are
    /// applied; where it fails, its failure is returned.
    pub fn round<F: Fn(&Vec<usize>) -> Option<usize>, G: Fn(&Vec<Vec<u8>>) -> Result<Evaluation, E>, E>(
        &self,
        trees: &mut Vec<SearchTree>,
        batch_size: usize,
        sampler: &F,
        evaluator: &G,
    ) -> (result: Result<(), E>)
        requires
            ready(old(trees)@, batch_size as int),
            forall|candidates: &Vec<usize>| sampler.requires((candidates,)),
            forall|inputs: &Vec<Vec<u8>>| evaluator.requires((inputs,)),
            forall|inputs: &Vec<Vec<u8>>, evaluation: Evaluation| #[trigger]
                evaluator.ensures((inputs,), Ok(evaluation)) ==> evaluation.fits(inputs.len() as int),
        ensures
            advanced(old(trees)@, final(trees)@, batch_size as int),
            round_done(
                old(trees)@,
                final(trees)@,
                batch_size as nat,
                self.c_puct as int,
                sampler,
                evaluator,
                result,
            ),
            refused(evaluator, result),
            result is Ok ==> idle(final(trees)@),
    {
        self.collect(trees, batch_size, sampler);
        let ghost mid = trees@;
        let inputs = self.encode_batch(trees);
        if inputs.len() == 0 {
            proof {
                lemma_empty_batch(mid);
            }
            assert(asked(mid, trees@, evaluator, Ok::<(), E>(())));
            return Ok(());
        }
        let answer = evaluator(&inputs);
        assert(evaluator.ensures((&inputs,), answer));
        match answer {
            Ok(evaluation) => {
                self.apply(trees, &evaluation);
                proof {
                    assert forall|t: int| 0 <= t < mid.len() implies extends(old(trees)[t], #[trigger] trees[t]) by {
                        lemma_extends_on(old(trees)[t], mid[t], trees[t]);
                    }
                    assert(asked(mid, trees@, evaluator, Ok::<(), E>(())));
                    assert(refused(evaluator, Ok::<(), E>(())));
                }
                Ok(())
            },
            Err(error) => {
                let result = Err::<(), E>(error);
                assert(asked(mid, trees@, evaluator, result));
                assert(evaluator.ensures((&inputs,), Err::<Evaluation, E>(result->Err_0)));
                assert(refused(evaluator, result));
                result
            },
        }
    }

    /// Runs rounds until a budget of `count` simulations is spent, each
    /// round spending `batch_size` of it in every tree, and stops at the
    /// first failure of `evaluator`, which it returns. `sampler` picks the
    /// move of each expansion among the open ones.
    pub fn execute_with<
        F: Fn(&Vec<usize>) -> Option<usize>,
        G: Fn(&Vec<Vec<u8>>) -> Result<Evaluation, E>,
        E,
    >(
        &self,
        count: usize,
        batch_size: usize,
        sampler: &F,
        evaluator: &G,
        trees: &mut Vec<SearchTree>,
    ) -> (result: Result<(), E>)
        requires
            count == 0 || batch_size > 0,
            count + batch_size <= usize::MAX,
            ready(old(trees)@, count + batch_size),
            forall|candidates: &Vec<usize>| sampler.requires((candidates,)),
            forall|inputs: &Vec<Vec<u8>>| evaluator.requires((inputs,)),
            forall|inputs: &Vec<Vec<u8>>, evaluation: Evaluation| #[trigger]
                evaluator.ensures((inputs,), Ok(evaluation)) ==> evaluation.fits(inputs.len() as int),
        ensures
            advanced(old(trees)@, final(trees)@, count + batch_size),
            refused(evaluator, result),
            result is Ok && idle(old(trees)@) ==> idle(final(trees)@),
            exists|rounds: nat|
                {
                    &&& rounds <= rounds_from(0, count as int, batch_size as int)
                    &&& result is Ok ==> rounds == rounds_from(0, count as int, batch_size as int)
                    &&& #[trigger] ran(
                        old(trees)@,
                        final(trees)@,
                        rounds,
                        batch_size as nat,
                        self.c_puct as int,
                        sampler,
                        evaluator,
                        result,
                    )
                },
    {
        let mut processed_count: usize = 0;
        let ghost mut rounds: nat = 0;
        proof {
            assert forall|t: int| 0 <= t < trees.len() implies extends(trees[t], #[trigger] trees[t]) by {
                lemma_extends_itself(trees[t]);
            }
        }
        while processed_count < count
            invariant
                count == 0 || batch_size > 0,
                count + batch_size <= usize::MAX,
                ready(old(trees)@, count + batch_size),
                forall|candidates: &Vec<usize>| sampler.requires((candidates,)),
                forall|inputs: &Vec<Vec<u8>>| evaluator.requires((inputs,)),
                forall|inputs: &Vec<Vec<u8>>, evaluation: Evaluation| #[trigger]
                    evaluator.ensures((inputs,), Ok(evaluation)) ==> evaluation.fits(inputs.len() as int),
                processed_count <= count + batch_size,
                advanced(old(trees)@, trees@, processed_count as int),
                idle(old(trees)@) ==> idle(trees@),
                rounds + rounds_from(processed_count as int, count as int, batch_size as int) == rounds_from(
                    0,
                    count as int,
                    batch_size as int,
                ),
                ran(
                    old(trees)@,
                    trees@,
                    rounds,
                    batch_size as nat,
                    self.c_puct as int,
                    sampler,
                    evaluator,
                    Ok::<(), E>(()),
                ),
            decreases
                    (if processed_count < count {
                        count - processed_count
                    } else {
                        0
                    }),
        {
            let ghost before = trees@;
            processed_count += batch_size;
            let outcome = self.round(trees, batch_size, sampler, evaluator);
            proof {
                assert forall|t: int| 0 <= t < before.len() implies extends(old(trees)[t], #[trigger] trees[t]) by {
                    lemma_extends_on(old(trees)[t], before[t], trees[t]);
                }
                rounds = rounds + 1;
                assert(ran(
                    old(trees)@,
                    trees@,
                    rounds,
                    batch_size as nat,
                    self.c_puct as int,
                    sampler,
                    evaluator,
                    outcome,
                ));
            }
            match outcome {
                Ok(unit) => {
                    assert(unit == ());
                    assert(outcome == Ok::<(), E>(()));
                },
                Err(error) => {
                    return Err(error);
                },
            }
        }
        Ok(())
    }

    /// Runs rounds like `execute_with`, each expansion by a move that the
    /// thread's random generator picks among the open ones.
    pub fn execute<G: Fn(&Vec<Vec<u8>>) -> Result<Evaluation, E>, E>(
        &self,
        count: usize,
        batch_size: usize,
        evaluator: &G,
        trees: &mut Vec<SearchTree>,
    ) -> (result: Result<(), E>)
        requires
            count == 0 || batch_size > 0,
            count + batch_size <= usize::MAX,
            ready(old(trees)@, count + batch_size),
            forall|inputs: &Vec<Vec<u8>>| evaluator.requires((inputs,)),
            forall|inputs: &Vec<Vec<u8>>, evaluation: Evaluation| #[trigger]
                evaluator.ensures((inputs,), Ok(evaluation)) ==> evaluation.fits(inputs.len() as int),
        ensures
            advanced(old(trees)@, final(trees)@, count + batch_size),
            refused(evaluator, result),
            result is Ok && idle(old(trees)@) ==> idle(final(trees)@),
            exists|rounds: nat|
                {
                    &&& rounds <= rounds_from(0, count as int, batch_size as int)
                    &&& result is Ok ==> rounds == rounds_from(0, count as int, batch_size as int)
                    &&& #[trigger] ran(
                        old(trees)@,
                        final(trees)@,
                        rounds,
                        batch_size as nat,
                        self.c_puct as int,
                        &pick_at_random,
                        evaluator,
                        result,
                    )
                },
    {
        self.execute_with(count, batch_size, &pick_at_random, evaluator, trees)
    }
}

/// The number of rounds that are still to run when `processed` of a budget
/// of `count` simulations is spent and each round spends `batch_size`.
pub open spec fn rounds_from(processed: int, count: int, batch_size: int) -> nat
    decreases
            (if processed < count {
                count - processed
            } else {
                0
            }),
{
    if processed < count && batch_size > 0 {
        1 + rounds_from(processed + batch_size, count, batch_size)
    } else {
        0
    }
}

/// What `rounds` rounds, one after another, do to trees that are well
/// formed before each of them, where `result` is what the last of them
/// returned and those before it succeeded.
pub open spec fn ran<
    F: Fn(&Vec<usize>) -> Option<usize>,
    G: Fn(&Vec<Vec<u8>>) -> Result<Evaluation, E>,
    E,
>(
    pre: Seq<SearchTree>,
    post: Seq<SearchTree>,
    rounds: nat,
    batch_size: nat,
    c: int,
    sampler: &F,
    evaluator: &G,
    result: Result<(), E>,
) -> bool
    decreases rounds,
{
    if rounds == 0 {
        post == pre && result is Ok
    } else {
        exists|mid: Seq<SearchTree>|
            ran(pre, mid, (rounds - 1) as nat, batch_size, c, sampler, evaluator, Ok::<(), E>(())) && all_wf(
                mid,
            ) && #[trigger] round_done(
                mid,
                post,
                batch_size,
                c,
                sampler,
                evaluator,
                result,
            )
    }
}

} // verus!
