//! Improving the agent by the samples of a rollout.

use crate::arithmetic::{Arithmetic, Operations};
use crate::joining::{
    join_numbers, join_rows, joined, law_joined_lists_keep_their_order, lemma_joined_length, same_rows,
};
use crate::lanes::{copied, is_grid};
use crate::minibatch::{
    batch, batch_count, is_permutation, law_every_sample_is_used_once,
    law_minibatches_are_full_but_the_last, lemma_batch_bounds, shuffled_minibatches,
};
use crate::model::Normalizer;
use crate::ppo::{law_a_pass_has_the_set_minibatches, ProximalPolicyOptimizationConfig};
use crate::rollout::Rollout;
use crate::single::Single;
use crate::statistics::{are_normalized, standardize};
use vstd::prelude::*;

verus! {

/// Samples to learn from, one entry to a sample in each list.
pub struct Samples {
    pub observations: Vec<Vec<Single>>,
    pub actions: Vec<Vec<Single>>,
    pub log_probabilities: Vec<Single>,
    pub returned: Vec<Single>,
    pub advantages: Vec<Single>,
    pub old_values: Vec<Single>,
}

/// The advantages, standardized.
pub open spec fn are_standardized<A: Arithmetic>(
    arithmetic: A,
    advantages: Seq<Single>,
    r: Seq<Single>,
) -> bool {
    &&& r.len() == advantages.len()
    &&& forall|m: Operations| #[trigger] m.describes(arithmetic) ==> r == m.standardized(advantages)
}

impl Samples {
    /// Every list has an entry for each of `count` samples.
    pub open spec fn has(&self, count: nat) -> bool {
        &&& self.observations@.len() == count
        &&& self.actions@.len() == count
        &&& self.log_probabilities@.len() == count
        &&& self.returned@.len() == count
        &&& self.advantages@.len() == count
        &&& self.old_values@.len() == count
    }

    /// The samples are those of a rollout, the environments of a step one after the other, step after
    /// step: the observations normalized, the advantages standardized, the rest as it is.
    pub open spec fn are_of<A: Arithmetic>(
        &self,
        arithmetic: A,
        rollout: Rollout,
        normalizer: Normalizer,
        returned: Seq<Single>,
        advantages: Seq<Single>,
    ) -> bool {
        let steps = rollout.dones@.len() as int;
        &&& exists|rows: Seq<Vec<Single>>|
            {
                &&& #[trigger] same_rows(rows, joined(rollout.observations@, steps))
                &&& are_normalized(arithmetic, normalizer, rows, self.observations@)
            }
        &&& same_rows(self.actions@, joined(rollout.actions@, steps))
        &&& self.log_probabilities@ == joined(rollout.log_probabilities@, steps)
        &&& self.old_values@ == joined(rollout.values@, steps)
        &&& self.returned@ == returned
        &&& are_standardized(arithmetic, advantages, self.advantages@)
    }

    /// The samples of a rollout in `count` environments.
    pub fn new<A: Arithmetic>(
        arithmetic: &A,
        rollout: &Rollout,
        count: usize,
        normalizer: &Normalizer,
        returned: Vec<Single>,
        advantages: &Vec<Single>,
    ) -> (r: Self)
        requires
            rollout.has_steps(rollout.dones@.len()),
            normalizer.has(normalizer.mean@.len()),
            exists|torques: nat| #[trigger]
                rollout.has_rows(count as nat, normalizer.mean@.len(), torques),
            returned@.len() == rollout.dones@.len() * count,
            advantages@.len() == rollout.dones@.len() * count,
            advantages@.len() > 0,
        ensures
            r.has(rollout.dones@.len() * count as nat),
            r.are_of(*arithmetic, *rollout, *normalizer, returned@, advantages@),
    {
        let rows = join_rows(&rollout.observations);
        let actions = join_rows(&rollout.actions);
        let log_probabilities = join_numbers(&rollout.log_probabilities);
        let old_values = join_numbers(&rollout.values);
        proof {
            let steps = rollout.dones@.len() as int;
            let width = normalizer.mean@.len();
            let torques = choose|torques: nat| #[trigger]
                rollout.has_rows(count as nat, width, torques);
            assert forall|t: int| 0 <= t < steps implies (#[trigger] rollout.observations@[t])@.len()
                == count by {
                assert(is_grid(rollout.observations@[t]@, count as nat, width));
            }
            assert forall|t: int| 0 <= t < steps implies (#[trigger] rollout.actions@[t])@.len()
                == count by {
                assert(is_grid(rollout.actions@[t]@, count as nat, torques));
            }
            lemma_joined_length(rollout.observations@, steps, count as nat);
            lemma_joined_length(rollout.actions@, steps, count as nat);
            lemma_joined_length(rollout.log_probabilities@, steps, count as nat);
            lemma_joined_length(rollout.values@, steps, count as nat);
            assert forall|i: int| 0 <= i < rows@.len() implies (#[trigger] rows@[i])@.len() == width by {
                lemma_joined_rows_have_width(rollout.observations@, steps, count as nat, width, i);
            }
        }
        let observations = normalizer.normalize(arithmetic, &rows);
        let standardized = standardize(arithmetic, advantages);
        assert(same_rows(rows@, joined(rollout.observations@, rollout.dones@.len() as int)));
        Samples {
            observations,
            actions,
            log_probabilities,
            returned,
            advantages: standardized,
            old_values,
        }
    }

    /// The samples that the indices name, in their order.
    pub open spec fn are_chosen(&self, indices: Seq<i64>, part: Samples) -> bool {
        &&& part.has(indices.len())
        &&& forall|i: int|
            0 <= i < indices.len() ==> (#[trigger] part.observations@[i])@
                == self.observations@[indices[i] as int]@
        &&& forall|i: int|
            0 <= i < indices.len() ==> (#[trigger] part.actions@[i])@ == self.actions@[indices[i] as int]@
        &&& part.log_probabilities@ == taken(self.log_probabilities@, indices)
        &&& part.returned@ == taken(self.returned@, indices)
        &&& part.advantages@ == taken(self.advantages@, indices)
        &&& part.old_values@ == taken(self.old_values@, indices)
    }

    /// Chooses the samples that the indices name, in their order.
    pub fn choose_samples(&self, indices: &Vec<i64>) -> (part: Self)
        requires
            self.has(self.actions@.len()),
            forall|i: int| 0 <= i < indices@.len() ==> 0 <= #[trigger] indices@[i] < self.actions@.len(),
        ensures
            self.are_chosen(indices@, part),
    {
        Samples {
            observations: take_rows(&self.observations, indices),
            actions: take_rows(&self.actions, indices),
            log_probabilities: take(&self.log_probabilities, indices),
            returned: take(&self.returned, indices),
            advantages: take(&self.advantages, indices),
            old_values: take(&self.old_values, indices),
        }
    }
}

/// The rows of joined lists have the width of the rows of the lists.
pub proof fn lemma_joined_rows_have_width(
    lists: Seq<Vec<Vec<Single>>>,
    steps: int,
    count: nat,
    width: nat,
    i: int,
)
    requires
        0 <= steps <= lists.len(),
        forall|t: int| 0 <= t < lists.len() ==> is_grid((#[trigger] lists[t])@, count, width),
        0 <= i < joined(lists, steps).len(),
    ensures
        joined(lists, steps)[i]@.len() == width,
    decreases steps,
{
    if steps > 0 {
        let before = joined(lists, steps - 1);
        assert(is_grid(lists[steps - 1]@, count, width));
        if i < before.len() {
            lemma_joined_rows_have_width(lists, steps - 1, count, width, i);
        } else {
            assert(lists[steps - 1]@[i - before.len()]@.len() == width);
        }
    }
}

/// The numbers that the indices name.
pub open spec fn taken(numbers: Seq<Single>, indices: Seq<i64>) -> Seq<Single> {
    Seq::new(indices.len(), |i: int| numbers[indices[i] as int])
}

/// Takes the numbers that the indices name.
fn take(numbers: &Vec<Single>, indices: &Vec<i64>) -> (r: Vec<Single>)
    requires
        forall|i: int| 0 <= i < indices@.len() ==> 0 <= #[trigger] indices@[i] < numbers@.len(),
    ensures
        r@ == taken(numbers@, indices@),
{
    let count = numbers.len();
    let mut r: Vec<Single> = Vec::new();
    let mut i: usize = 0;
    while i < indices.len()
        invariant
            count == numbers@.len(),
            forall|i: int| 0 <= i < indices@.len() ==> 0 <= #[trigger] indices@[i] < numbers@.len(),
            i <= indices@.len(),
            r@ =~= Seq::new(i as nat, |i: int| numbers@[indices@[i] as int]),
        decreases indices@.len() - i,
    {
        assert(0 <= indices@[i as int] < numbers@.len());
        r.push(numbers[indices[i] as usize]);
        i = i + 1;
    }
    r
}

/// Takes the rows that the indices name.
fn take_rows(rows: &Vec<Vec<Single>>, indices: &Vec<i64>) -> (r: Vec<Vec<Single>>)
    requires
        forall|i: int| 0 <= i < indices@.len() ==> 0 <= #[trigger] indices@[i] < rows@.len(),
    ensures
        r@.len() == indices@.len(),
        forall|i: int| 0 <= i < indices@.len() ==> (#[trigger] r@[i])@ == rows@[indices@[i] as int]@,
{
    let count = rows.len();
    let mut r: Vec<Vec<Single>> = Vec::new();
    let mut i: usize = 0;
    while i < indices.len()
        invariant
            count == rows@.len(),
            forall|i: int| 0 <= i < indices@.len() ==> 0 <= #[trigger] indices@[i] < rows@.len(),
            i <= indices@.len(),
            r@.len() == i,
            forall|k: int| 0 <= k < i ==> (#[trigger] r@[k])@ == rows@[indices@[k] as int]@,
        decreases indices@.len() - i,
    {
        assert(0 <= indices@[i as int] < rows@.len());
        r.push(copied(&rows[indices[i] as usize]));
        i = i + 1;
    }
    r
}

/// The arithmetic of learning. Nothing is assumed of it.
pub trait Learner {
    type Agent;

    /// The agent after one step down the gradient of its loss on the given samples.
    fn learn(&self, agent: Self::Agent, samples: &Samples) -> Self::Agent;
}

/// The second agent is what the first learned from the samples that the indices name.
pub open spec fn taught<L: Learner>(
    learner: L,
    samples: Samples,
    indices: Seq<i64>,
    from: L::Agent,
    to: L::Agent,
) -> bool {
    exists|part: Samples|
        {
            &&& samples.are_chosen(indices, part)
            &&& #[trigger] call_ensures(L::learn, (&learner, from, &part), to)
        }
}

/// Each agent but the first is what the one before it learned from a minibatch, in their order.
pub open spec fn learned<L: Learner>(
    learner: L,
    samples: Samples,
    batches: Seq<Vec<i64>>,
    agents: Seq<L::Agent>,
    count: int,
) -> bool {
    &&& agents.len() == count + 1
    &&& forall|k: int|
        0 <= k < count ==> taught(
            learner,
            samples,
            batches[k]@,
            #[trigger] agents[k],
            agents[k + 1],
        )
}

/// The minibatches are those of a permutation of the samples.
pub open spec fn are_minibatches(
    config: ProximalPolicyOptimizationConfig,
    indices: Seq<i64>,
    batches: Seq<Vec<i64>>,
) -> bool {
    let size = config.samples() / config.minibatches as nat;
    &&& is_permutation(indices, config.samples())
    &&& batches.len() == batch_count(config.samples(), size)
    &&& forall|k: int|
        0 <= k < batches.len() ==> (#[trigger] batches[k])@ == batch(indices, size, k)
}

/// One pass over the samples leads from one agent to the other.
pub open spec fn passed<L: Learner>(
    learner: L,
    config: ProximalPolicyOptimizationConfig,
    samples: Samples,
    from: L::Agent,
    to: L::Agent,
) -> bool {
    exists|indices: Seq<i64>, batches: Seq<Vec<i64>>, agents: Seq<L::Agent>|
        {
            &&& #[trigger] are_minibatches(config, indices, batches)
            &&& #[trigger] learned(learner, samples, batches, agents, batches.len() as int)
            &&& agents[0] == from
            &&& agents.last() == to
        }
}

/// Every minibatch has a sample, and an index fits into memory for every sample.
pub open spec fn has_samples(config: ProximalPolicyOptimizationConfig) -> bool {
    &&& 0 < config.minibatches <= config.samples()
    &&& 8 * config.samples() <= isize::MAX
}

/// Passes over the samples once, in a random order and in minibatches.
pub fn pass<L: Learner>(
    learner: &L,
    agent: L::Agent,
    config: &ProximalPolicyOptimizationConfig,
    samples: &Samples,
) -> (r: L::Agent)
    requires
        has_samples(*config),
        samples.has(config.samples()),
    ensures
        passed(*learner, *config, *samples, agent, r),
{
    let batches = shuffled_minibatches(config.number_of_samples(), config.batch_size());
    let ghost size = config.samples() / config.minibatches as nat;
    let ghost indices = choose|indices: Seq<i64>|
        {
            &&& #[trigger] is_permutation(indices, config.samples())
            &&& batches@.len() == batch_count(config.samples(), size)
            &&& forall|k: int|
                0 <= k < batches@.len() ==> (#[trigger] batches@[k])@ == batch(indices, size, k)
        };
    assert(are_minibatches(*config, indices, batches@));
    let mut present = agent;
    let ghost mut agents: Seq<L::Agent> = seq![agent];
    let mut i: usize = 0;
    while i < batches.len()
        invariant
            samples.has(config.samples()),
            size == config.samples() / config.minibatches as nat,
            size > 0,
            are_minibatches(*config, indices, batches@),
            i <= batches@.len(),
            learned(*learner, *samples, batches@, agents, i as int),
            agents[0] == agent,
            agents.last() == present,
        decreases batches@.len() - i,
    {
        let ghost before = agents;
        proof {
            assert(batches@[i as int]@ == batch(indices, size, i as int));
            law_minibatches_name_samples(indices, size, i as int);
        }
        let part = samples.choose_samples(&batches[i]);
        let next = learner.learn(present, &part);
        proof {
            assert(call_ensures(L::learn, (learner, before[i as int], &part), next));
            assert(taught(*learner, *samples, batches@[i as int]@, before[i as int], next));
            agents = agents.push(next);
            assert forall|k: int| 0 <= k < i + 1 implies taught(
                *learner,
                *samples,
                batches@[k]@,
                #[trigger] agents[k],
                agents[k + 1],
            ) by {
                assert(agents[k] == before[k]);
                if k < i {
                    assert(agents[k + 1] == before[k + 1]);
                }
            }
        }
        present = next;
        i = i + 1;
    }
    assert(learned(*learner, *samples, batches@, agents, batches@.len() as int));
    present
}

/// A minibatch names nothing but samples.
pub proof fn law_minibatches_name_samples(indices: Seq<i64>, size: nat, k: int)
    requires
        size > 0,
        is_permutation(indices, indices.len()),
        0 <= k < batch_count(indices.len(), size),
    ensures
        forall|j: int|
            0 <= j < batch(indices, size, k).len() ==> 0 <= #[trigger] batch(indices, size, k)[j]
                < indices.len(),
{
    lemma_batch_bounds(indices.len(), size, k);
    assert forall|j: int| 0 <= j < batch(indices, size, k).len() implies 0 <= #[trigger] batch(
        indices,
        size,
        k,
    )[j] < indices.len() by {
        assert(batch(indices, size, k)[j] == indices[k * size + j]);
    }
}

/// Each agent but the first is where one pass leads from the one before it.
pub open spec fn updated<L: Learner>(
    learner: L,
    config: ProximalPolicyOptimizationConfig,
    samples: Samples,
    agents: Seq<L::Agent>,
    passes: int,
) -> bool {
    &&& agents.len() == passes + 1
    &&& forall|k: int|
        0 <= k < passes ==> passed(learner, config, samples, #[trigger] agents[k], agents[k + 1])
}

/// As many passes over the samples as are set lead from one agent to the other.
pub open spec fn improved<L: Learner>(
    learner: L,
    config: ProximalPolicyOptimizationConfig,
    samples: Samples,
    from: L::Agent,
    to: L::Agent,
) -> bool {
    exists|agents: Seq<L::Agent>|
        {
            &&& #[trigger] updated(learner, config, samples, agents, config.update_epochs as int)
            &&& agents[0] == from
            &&& agents.last() == to
        }
}

/// Passes over the samples as often as is set.
pub fn update<L: Learner>(
    learner: &L,
    agent: L::Agent,
    config: &ProximalPolicyOptimizationConfig,
    samples: &Samples,
) -> (r: L::Agent)
    requires
        config.minibatches > 0,
        config.update_epochs > 0 ==> has_samples(*config) && samples.has(config.samples()),
    ensures
        exists|agents: Seq<L::Agent>|
            {
                &&& #[trigger] updated(
                    *learner,
                    *config,
                    *samples,
                    agents,
                    config.update_epochs as int,
                )
                &&& agents[0] == agent
                &&& agents.last() == r
            },
        improved(*learner, *config, *samples, agent, r),
{
    let mut present = agent;
    let ghost mut agents: Seq<L::Agent> = seq![agent];
    let mut epoch: usize = 0;
    while epoch < config.update_epochs
        invariant
            config.update_epochs > 0 ==> has_samples(*config) && samples.has(config.samples()),
            epoch <= config.update_epochs,
            updated(*learner, *config, *samples, agents, epoch as int),
            agents[0] == agent,
            agents.last() == present,
        decreases config.update_epochs - epoch,
    {
        let ghost before = agents;
        let next = pass(learner, present, config, samples);
        proof {
            agents = agents.push(next);
            assert forall|k: int| 0 <= k < epoch + 1 implies passed(
                *learner,
                *config,
                *samples,
                #[trigger] agents[k],
                agents[k + 1],
            ) by {
                assert(agents[k] == before[k]);
                if k < epoch {
                    assert(agents[k + 1] == before[k + 1]);
                }
            }
        }
        present = next;
        epoch = epoch + 1;
    }
    assert(updated(*learner, *config, *samples, agents, config.update_epochs as int));
    present
}

/// The samples of a rollout are listed environment by environment, step by step: what stands at the place of
/// a step of an environment is what was done there and how likely it was, and what it was thought to be
/// worth.
pub proof fn law_samples_list_the_steps<A: Arithmetic>(
    arithmetic: A,
    m: Operations,
    samples: Samples,
    rollout: Rollout,
    normalizer: Normalizer,
    returned: Seq<Single>,
    advantages: Seq<Single>,
    count: nat,
    seen: nat,
    torques: nat,
    t: int,
    b: int,
)
    requires
        m.describes(arithmetic),
        samples.are_of(arithmetic, rollout, normalizer, returned, advantages),
        rollout.has_steps(rollout.dones@.len()),
        rollout.has_rows(count, seen, torques),
        advantages.len() == rollout.dones@.len() * count,
        0 <= t < rollout.dones@.len(),
        0 <= b < count,
    ensures
        ({
            let place = t * count + b;
            &&& samples.actions@[place]@ == rollout.actions@[t]@[b]@
            &&& samples.log_probabilities@[place] == rollout.log_probabilities@[t]@[b]
            &&& samples.old_values@[place] == rollout.values@[t]@[b]
            &&& samples.returned@ == returned
            &&& samples.advantages@ == m.standardized(advantages)
            &&& samples.observations@[place]@ == m.normalized(
                rollout.observations@[t]@[b]@,
                normalizer.mean@,
                normalizer.var@,
            )
        }),
{
    let steps = rollout.dones@.len() as int;
    let place = t * count + b;
    assert forall|s: int| 0 <= s < steps implies (#[trigger] rollout.observations@[s])@.len() == count by {
        assert(is_grid(rollout.observations@[s]@, count, seen));
    }
    assert forall|s: int| 0 <= s < steps implies (#[trigger] rollout.actions@[s])@.len() == count by {
        assert(is_grid(rollout.actions@[s]@, count, torques));
    }
    law_joined_lists_keep_their_order(rollout.observations@, steps, count, t, b);
    law_joined_lists_keep_their_order(rollout.actions@, steps, count, t, b);
    law_joined_lists_keep_their_order(rollout.log_probabilities@, steps, count, t, b);
    law_joined_lists_keep_their_order(rollout.values@, steps, count, t, b);
    lemma_joined_length(rollout.observations@, steps, count);
    lemma_joined_length(rollout.actions@, steps, count);
    assert(0 <= place < steps * count) by (nonlinear_arith)
        requires
            place == t * count + b,
            0 <= t < steps,
            0 <= b < count,
    ;
    let rows = choose|rows: Seq<Vec<Single>>|
        {
            &&& #[trigger] same_rows(rows, joined(rollout.observations@, steps))
            &&& are_normalized(arithmetic, normalizer, rows, samples.observations@)
        };
    assert(rows[place]@ == rollout.observations@[t]@[b]@);
}

/// The samples that are chosen are those that the indices name, with everything that belongs to them.
pub proof fn law_chosen_samples_stay_together(
    samples: Samples,
    indices: Seq<i64>,
    part: Samples,
    i: int,
)
    requires
        samples.are_chosen(indices, part),
        0 <= i < indices.len(),
    ensures
        ({
            let sample = indices[i] as int;
            &&& part.observations@.len() == indices.len()
            &&& part.observations@[i]@ == samples.observations@[sample]@
            &&& part.actions@[i]@ == samples.actions@[sample]@
            &&& part.log_probabilities@[i] == samples.log_probabilities@[sample]
            &&& part.returned@[i] == samples.returned@[sample]
            &&& part.advantages@[i] == samples.advantages@[sample]
            &&& part.old_values@[i] == samples.old_values@[sample]
        }),
{
}

/// A pass uses every sample of the rollout once: there are as many as environments times steps, and, where the
/// set number of minibatches divides them, just as many minibatches, all of the same size.
pub proof fn law_a_pass_uses_all_samples(
    config: ProximalPolicyOptimizationConfig,
    indices: Seq<i64>,
    batches: Seq<Vec<i64>>,
    sample: int,
    k: int,
)
    requires
        are_minibatches(config, indices, batches),
        0 < config.minibatches <= config.environments_count * config.rollout_length,
        0 <= sample < config.environments_count * config.rollout_length,
        0 <= k < batches.len(),
    ensures
        ({
            let n = (config.environments_count * config.rollout_length) as int;
            let m = config.minibatches as int;
            &&& batches.len() >= m
            &&& n % m == 0 ==> batches.len() == m && batches[k]@.len() * m == n
            &&& k + 1 < batches.len() ==> batches[k]@.len() == n / m
            &&& 0 < batches[k]@.len() <= n / m
        }),
        exists|l: int, j: int|
            0 <= l < batches.len() && 0 <= j < batches[l]@.len() && #[trigger] batches[l]@[j]
                == sample,
        forall|l: int, j: int, p: int, q: int|
            {
                &&& 0 <= l < batches.len()
                &&& 0 <= j < batches[l]@.len()
                &&& #[trigger] batches[l]@[j] == sample
                &&& 0 <= p < batches.len()
                &&& 0 <= q < batches[p]@.len()
                &&& #[trigger] batches[p]@[q] == sample
            } ==> l == p && j == q,
{
    let (n, m) = (config.samples() as int, config.minibatches as int);
    let size = config.samples() / config.minibatches as nat;
    law_a_pass_has_the_set_minibatches(config);
    law_minibatches_are_full_but_the_last(indices, size, k);
    law_every_sample_is_used_once(indices, size, sample);
    assert(batches[k]@ == batch(indices, size, k));
    let (l, j) = choose|l: int, j: int|
        0 <= l < batch_count(indices.len(), size) && 0 <= j < batch(indices, size, l).len()
            && #[trigger] batch(indices, size, l)[j] == sample;
    assert(batches[l]@ == batch(indices, size, l));
    assert(batches[l]@[j] == sample);
    assert forall|l: int, j: int, p: int, q: int|
        {
            &&& 0 <= l < batches.len()
            &&& 0 <= j < batches[l]@.len()
            &&& #[trigger] batches[l]@[j] == sample
            &&& 0 <= p < batches.len()
            &&& 0 <= q < batches[p]@.len()
            &&& #[trigger] batches[p]@[q] == sample
        } implies l == p && j == q by {
        assert(batches[l]@ == batch(indices, size, l));
        assert(batches[p]@ == batch(indices, size, p));
        assert(batch(indices, size, l)[j] == sample);
        assert(batch(indices, size, p)[q] == sample);
    }
    if n % m == 0 {
        let s = size as int;
        assert(n == s * m) by (nonlinear_arith)
            requires
                s == n / m,
                n % m == 0,
                m > 0,
        ;
        lemma_batch_bounds(indices.len(), size, k);
        assert(k * s + s <= n) by (nonlinear_arith)
            requires
                k + 1 <= m,
                n == s * m,
                s > 0,
        ;
    }
}

/// An update passes over the samples as often as is set, each pass from where the one before it led, and a
/// pass learns from its minibatches one after the other.
pub proof fn law_updates_pass_as_often_as_is_set<L: Learner>(
    learner: L,
    config: ProximalPolicyOptimizationConfig,
    samples: Samples,
    from: L::Agent,
    to: L::Agent,
)
    requires
        improved(learner, config, samples, from, to),
    ensures
        config.update_epochs == 0 ==> to == from,
        config.update_epochs == 1 ==> passed(learner, config, samples, from, to),
        exists|agents: Seq<L::Agent>|
            {
                &&& #[trigger] agents.len() == config.update_epochs + 1
                &&& agents[0] == from
                &&& agents[config.update_epochs as int] == to
                &&& forall|k: int|
                    0 <= k < config.update_epochs ==> passed(
                        learner,
                        config,
                        samples,
                        #[trigger] agents[k],
                        agents[k + 1],
                    )
            },
{
    let agents = choose|agents: Seq<L::Agent>|
        {
            &&& #[trigger] updated(learner, config, samples, agents, config.update_epochs as int)
            &&& agents[0] == from
            &&& agents.last() == to
        };
    assert(agents.len() == config.update_epochs + 1);
    if config.update_epochs == 1 {
        assert(passed(learner, config, samples, agents[0], agents[1]));
    }
}

} // verus!
