//! The record of what the agents did, and what came of it.

use crate::arithmetic::{products, sums, total, Arithmetic, Operations};
use crate::decision::{decided, Behavior, Decision, Policy};
use crate::env::{
    is_fresh, law_exchanging_keeps_the_shape, stepped, was_reset, Chance, EnvironmentState,
    TrainingEnv, TrainingStep,
};
use crate::fidelity::{
    finite, law_products_stay_between, multiplies_faithfully, sum_is_exact, total_is_exact, unit,
    values_total,
};
use crate::joining::{are_even, join_marks, join_numbers, joined, lemma_joined_length, marks};
use crate::lanes::{copied, filled, is_grid, pick, picked, repeated};
use crate::motion::PhysicsState;
use crate::observation::{sees, shows};
use crate::ppo::ProximalPolicyOptimizationConfig;
use crate::rounding::{
    law_rounding_keeps_order, law_small_numbers_are_exact, round_to_single, rounded,
};
use crate::single::{Single, ONE, ZERO};
use vstd::prelude::*;

verus! {

/// The steps of a batch of environments, one entry to a step in each list, and their totals.
pub struct Rollout {
    pub observations: Vec<Vec<Vec<Single>>>,
    pub actions: Vec<Vec<Vec<Single>>>,
    pub log_probabilities: Vec<Vec<Single>>,
    pub values: Vec<Vec<Single>>,
    pub rewards: Vec<Vec<Single>>,
    pub dones: Vec<Vec<bool>>,
    pub is_fallens: Vec<Vec<bool>>,
    pub cumulative_rewards: Vec<Vec<Single>>,
    pub total_fallen: usize,
    pub total_reward: Single,
    pub total_episodes: usize,
}

/// Lists of this many entries fit into memory.
pub open spec fn fits(capacity: int) -> bool {
    24 * capacity <= isize::MAX
}

impl Rollout {
    /// Every list has an entry for each of `steps` steps.
    pub open spec fn has_steps(&self, steps: nat) -> bool {
        &&& self.observations@.len() == steps
        &&& self.actions@.len() == steps
        &&& self.log_probabilities@.len() == steps
        &&& self.values@.len() == steps
        &&& self.rewards@.len() == steps
        &&& self.dones@.len() == steps
        &&& self.is_fallens@.len() == steps
        &&& self.cumulative_rewards@.len() == steps
    }

    /// The totals are those of a record without a finished episode.
    pub open spec fn has_no_totals(&self) -> bool {
        self.total_fallen == 0 && self.total_reward == Single::of(ZERO) && self.total_episodes == 0
    }

    /// An empty record, with room for `capacity` steps.
    pub fn new(capacity: usize) -> (r: Self)
        requires
            fits(capacity as int),
        ensures
            r.has_steps(0),
            r.has_no_totals(),
    {
        Rollout {
            observations: Vec::with_capacity(capacity),
            actions: Vec::with_capacity(capacity),
            log_probabilities: Vec::with_capacity(capacity),
            values: Vec::with_capacity(capacity),
            rewards: Vec::with_capacity(capacity),
            dones: Vec::with_capacity(capacity),
            is_fallens: Vec::with_capacity(capacity),
            cumulative_rewards: Vec::with_capacity(capacity),
            total_fallen: 0,
            total_reward: Single { bits: ZERO },
            total_episodes: 0,
        }
    }

    /// Adds a step to the record.
    pub fn push(
        &mut self,
        observation: Vec<Vec<Single>>,
        action: Vec<Vec<Single>>,
        log_probability: Vec<Single>,
        value: Vec<Single>,
        reward: Vec<Single>,
        done: Vec<bool>,
        is_fallen: Vec<bool>,
        cumulative_reward: Vec<Single>,
    )
        ensures
            final(self).observations@ == old(self).observations@.push(observation),
            final(self).actions@ == old(self).actions@.push(action),
            final(self).log_probabilities@ == old(self).log_probabilities@.push(log_probability),
            final(self).values@ == old(self).values@.push(value),
            final(self).rewards@ == old(self).rewards@.push(reward),
            final(self).dones@ == old(self).dones@.push(done),
            final(self).is_fallens@ == old(self).is_fallens@.push(is_fallen),
            final(self).cumulative_rewards@ == old(self).cumulative_rewards@.push(
                cumulative_reward,
            ),
            final(self).total_fallen == old(self).total_fallen,
            final(self).total_reward == old(self).total_reward,
            final(self).total_episodes == old(self).total_episodes,
    {
        self.observations.push(observation);
        self.actions.push(action);
        self.log_probabilities.push(log_probability);
        self.values.push(value);
        self.rewards.push(reward);
        self.dones.push(done);
        self.is_fallens.push(is_fallen);
        self.cumulative_rewards.push(cumulative_reward);
    }
}

/// The number of lanes that are set in both masks, among the first `count`.
pub open spec fn both_set(a: Seq<bool>, b: Seq<bool>, count: int) -> nat
    decreases count,
{
    if count <= 0 {
        0
    } else {
        both_set(a, b, count - 1) + if a[count - 1] && b[count - 1] {
            1nat
        } else {
            0nat
        }
    }
}

/// The number of lanes that are set in both lists of masks, in the first `steps` steps.
pub open spec fn both_set_in(a: Seq<Vec<bool>>, b: Seq<Vec<bool>>, steps: int) -> nat
    decreases steps,
{
    if steps <= 0 {
        0
    } else {
        both_set_in(a, b, steps - 1) + both_set(
            a[steps - 1]@,
            b[steps - 1]@,
            a[steps - 1]@.len() as int,
        )
    }
}

/// The number of lanes of the first `steps` masks.
pub open spec fn lanes_in(a: Seq<Vec<bool>>, steps: int) -> nat
    decreases steps,
{
    if steps <= 0 {
        0
    } else {
        lanes_in(a, steps - 1) + a[steps - 1]@.len()
    }
}

proof fn lemma_both_set_few(a: Seq<bool>, b: Seq<bool>, count: int)
    requires
        0 <= count,
    ensures
        both_set(a, b, count) <= count,
    decreases count,
{
    if count > 0 {
        lemma_both_set_few(a, b, count - 1);
    }
}

proof fn lemma_both_set_in_few(a: Seq<Vec<bool>>, b: Seq<Vec<bool>>, steps: int, all: int)
    requires
        0 <= steps <= all <= a.len(),
    ensures
        both_set_in(a, b, steps) <= lanes_in(a, steps) <= lanes_in(a, all),
    decreases all,
{
    if all > steps {
        lemma_both_set_in_few(a, b, steps, all - 1);
    } else if steps > 0 {
        lemma_both_set_in_few(a, b, steps - 1, all - 1);
        lemma_both_set_few(a[steps - 1]@, b[steps - 1]@, a[steps - 1]@.len() as int);
    }
}

/// Counts the lanes that are set in both lists of masks.
fn count_both(a: &Vec<Vec<bool>>, b: &Vec<Vec<bool>>) -> (r: u64)
    requires
        b@.len() == a@.len(),
        forall|t: int| 0 <= t < a@.len() ==> (#[trigger] b@[t])@.len() == a@[t]@.len(),
        lanes_in(a@, a@.len() as int) <= usize::MAX,
    ensures
        r == both_set_in(a@, b@, a@.len() as int),
{
    let mut r: u64 = 0;
    let mut t: usize = 0;
    while t < a.len()
        invariant
            b@.len() == a@.len(),
            forall|t: int| 0 <= t < a@.len() ==> (#[trigger] b@[t])@.len() == a@[t]@.len(),
            lanes_in(a@, a@.len() as int) <= usize::MAX,
            t <= a@.len(),
            r == both_set_in(a@, b@, t as int),
        decreases a@.len() - t,
    {
        let mut i: usize = 0;
        let ghost before = r as int;
        assert(b@[t as int]@.len() == a@[t as int]@.len());
        while i < a[t].len()
            invariant
                t < a@.len(),
                b@.len() == a@.len(),
                b@[t as int]@.len() == a@[t as int]@.len(),
                lanes_in(a@, a@.len() as int) <= usize::MAX,
                i <= a@[t as int]@.len(),
                before == both_set_in(a@, b@, t as int),
                r == before + both_set(a@[t as int]@, b@[t as int]@, i as int),
            decreases a@[t as int]@.len() - i,
        {
            proof {
                lemma_both_set_in_few(a@, b@, t as int, t as int);
                lemma_both_set_in_few(a@, b@, t + 1, a@.len() as int);
                lemma_both_set_few(a@[t as int]@, b@[t as int]@, i as int);
            }
            if a[t][i] && b[t][i] {
                r = r + 1;
            }
            i = i + 1;
        }
        t = t + 1;
    }
    r
}

/// A count as it comes back out of single precision.
pub open spec fn as_counted(count: nat) -> nat {
    if rounded(count) <= usize::MAX {
        rounded(count)
    } else {
        usize::MAX as nat
    }
}

/// Passes a count through single precision.
fn counted(count: u64) -> (r: usize)
    ensures
        r == as_counted(count as nat),
{
    let rounded = round_to_single(count);
    if rounded <= usize::MAX as u128 {
        rounded as usize
    } else {
        usize::MAX
    }
}

impl Rollout {
    /// The number of episodes that ended.
    pub open spec fn episodes(&self) -> nat {
        both_set_in(self.dones@, self.dones@, self.dones@.len() as int)
    }

    /// The number of episodes that ended in a fall.
    pub open spec fn falls(&self) -> nat {
        both_set_in(self.dones@, self.is_fallens@, self.dones@.len() as int)
    }

    /// Both masks of every step have the same lanes, and there is a number for all lanes together.
    pub open spec fn has_masks(&self) -> bool {
        &&& self.is_fallens@.len() == self.dones@.len()
        &&& forall|t: int|
            0 <= t < self.dones@.len() ==> (#[trigger] self.is_fallens@[t])@.len()
                == self.dones@[t]@.len()
        &&& lanes_in(self.dones@, self.dones@.len() as int) <= usize::MAX
    }

    /// What becomes of `self` when the finished episodes are totalled, whose rewards add up to
    /// `total_reward`: where none has ended, nothing changes.
    pub open spec fn totalled(self, total_reward: Single, after: Self) -> bool {
        &&& self.episodes() == 0 ==> after == self
        &&& self.episodes() > 0 ==> {
            &&& after.total_episodes == as_counted(self.episodes())
            &&& after.total_fallen == as_counted(self.falls())
            &&& after.total_reward == total_reward
        }
        &&& after.observations == self.observations
        &&& after.actions == self.actions
        &&& after.log_probabilities == self.log_probabilities
        &&& after.values == self.values
        &&& after.rewards == self.rewards
        &&& after.dones == self.dones
        &&& after.is_fallens == self.is_fallens
        &&& after.cumulative_rewards == self.cumulative_rewards
    }

    /// Totals the finished episodes, whose rewards add up to `total_reward`. Where none has ended,
    /// nothing changes.
    pub fn total_up(&mut self, total_reward: Single)
        requires
            old(self).has_masks(),
        ensures
            old(self).totalled(total_reward, *final(self)),
    {
        let episodes = counted(count_both(&self.dones, &self.dones));
        proof {
            lemma_no_count_is_lost(self.episodes());
        }
        if episodes > 0 {
            self.total_episodes = episodes;
            self.total_fallen = counted(count_both(&self.dones, &self.is_fallens));
            self.total_reward = total_reward;
        }
    }
}

/// A count is zero after rounding just where it was zero before.
proof fn lemma_no_count_is_lost(count: nat)
    ensures
        as_counted(count) == 0 <==> count == 0,
{
    law_small_numbers_are_exact(0);
    law_small_numbers_are_exact(1);
    if count > 0 {
        law_rounding_keeps_order(1, count);
    }
}

/// No more episodes end in a fall than end.
pub proof fn law_falls_are_episodes(rollout: Rollout)
    ensures
        rollout.falls() <= rollout.episodes(),
        as_counted(rollout.falls()) <= as_counted(rollout.episodes()),
{
    lemma_falls_are_episodes(rollout.dones@, rollout.is_fallens@, rollout.dones@.len() as int);
    law_rounding_keeps_order(rollout.falls(), rollout.episodes());
}

proof fn lemma_falls_are_episodes(dones: Seq<Vec<bool>>, falls: Seq<Vec<bool>>, steps: int)
    ensures
        both_set_in(dones, falls, steps) <= both_set_in(dones, dones, steps),
    decreases steps,
{
    if steps > 0 {
        lemma_falls_are_episodes(dones, falls, steps - 1);
        lemma_both_set_fewer(dones[steps - 1]@, falls[steps - 1]@, dones[steps - 1]@.len() as int);
    }
}

proof fn lemma_both_set_fewer(a: Seq<bool>, b: Seq<bool>, count: int)
    ensures
        both_set(a, b, count) <= both_set(a, a, count),
    decreases count,
{
    if count > 0 {
        lemma_both_set_fewer(a, b, count - 1);
    }
}

impl Rollout {
    /// In every step there is an entry for each of `count` environments: observations of `seen`
    /// numbers, actions of `torques` numbers, and one entry in every other list.
    pub open spec fn has_rows(&self, count: nat, seen: nat, torques: nat) -> bool {
        &&& forall|t: int|
            0 <= t < self.observations@.len() ==> is_grid(
                (#[trigger] self.observations@[t])@,
                count,
                seen,
            )
        &&& forall|t: int|
            0 <= t < self.actions@.len() ==> is_grid((#[trigger] self.actions@[t])@, count, torques)
        &&& are_even(self.log_probabilities@, count)
        &&& are_even(self.values@, count)
        &&& are_even(self.rewards@, count)
        &&& are_even(self.dones@, count)
        &&& are_even(self.is_fallens@, count)
        &&& are_even(self.cumulative_rewards@, count)
    }
}

impl Operations {
    /// The rewards of the finished episodes together: what had been earned by the step that ended each.
    pub open spec fn finished_reward(self, rollout: Rollout) -> Single {
        (self.total)(
            self.products(
                marks(rollout.dones@),
                joined(rollout.cumulative_rewards@, rollout.cumulative_rewards@.len() as int),
            ),
        )
    }
}

/// The number is what the arithmetic makes of the rewards of the finished episodes together.
pub open spec fn is_total<A: Arithmetic>(arithmetic: A, rollout: Rollout, number: Single) -> bool {
    forall|m: Operations| #[trigger] m.describes(arithmetic) ==> number == m.finished_reward(rollout)
}

/// A rollout under way: the record so far, and what the next step starts from.
pub struct Collector {
    pub rollout: Rollout,
    pub observation: Vec<Vec<Single>>,
    pub state: PhysicsState,
    pub current_episode_rewards: Vec<Single>,
    /// The number of steps to record.
    pub rollout_length: usize,
}

impl Collector {
    /// The record has a whole number of steps, every list has an entry for each of `count`
    /// environments, and those whose episode the last step ended have started afresh.
    pub open spec fn wf(&self, env: TrainingEnv, count: nat) -> bool {
        let seen = (4 * env.walker.n_particles) as nat;
        &&& self.rollout.has_steps(self.rollout.dones@.len())
        &&& self.rollout.dones@.len() <= self.rollout_length
        &&& self.rollout.has_rows(count, seen, env.walker.joint_pairs@.len())
        &&& is_grid(self.observation@, count, seen)
        &&& self.state.holds(count, env.walker.n_particles as nat)
        &&& self.current_episode_rewards@.len() == count
        &&& self.rollout.dones@.len() > 0 ==> self.has_restarted(self.rollout.dones@.last()@)
    }

    /// Where the mask is set, the environments have started afresh and have earned nothing yet.
    pub open spec fn has_restarted(&self, mask: Seq<bool>) -> bool {
        forall|b: int|
            0 <= b < mask.len() && #[trigger] mask[b] ==> is_fresh(self.state, b)
                && self.current_episode_rewards@[b] == Single::of(ZERO)
    }

    /// Starts a rollout of `rollout_length` steps.
    fn new(
        Ghost(env): Ghost<TrainingEnv>,
        observation: Vec<Vec<Single>>,
        state: PhysicsState,
        current_episode_rewards: Vec<Single>,
        rollout_length: usize,
    ) -> (r: Self)
        requires
            fits(rollout_length as int),
            is_grid(observation@, observation@.len(), (4 * env.walker.n_particles) as nat),
            state.holds(observation@.len(), env.walker.n_particles as nat),
            current_episode_rewards@.len() == observation@.len(),
        ensures
            r.wf(env, observation@.len()),
            r.starts(observation, state, current_episode_rewards, rollout_length),
    {
        Collector {
            rollout: Rollout::new(rollout_length),
            observation,
            state,
            current_episode_rewards,
            rollout_length,
        }
    }

    /// Nothing is recorded yet, and the first step starts from what is given.
    pub open spec fn starts(
        &self,
        observation: Vec<Vec<Single>>,
        state: PhysicsState,
        current_episode_rewards: Vec<Single>,
        rollout_length: usize,
    ) -> bool {
        &&& self.rollout.has_steps(0)
        &&& self.rollout.has_no_totals()
        &&& self.observation == observation
        &&& self.state == state
        &&& self.current_episode_rewards == current_episode_rewards
        &&& self.rollout_length == rollout_length
    }

    /// What becomes of `self` when a step is recorded: the step is added to the record, and the
    /// environments whose episode it ended start afresh.
    pub open spec fn recorded(
        self,
        decision: Decision,
        step: TrainingStep,
        earned: Vec<Single>,
        reset_observation: Vec<Vec<Single>>,
        reset_state: PhysicsState,
        after: Self,
    ) -> bool {
        &&& after.rollout_length == self.rollout_length
        &&& after.rollout.observations@ == self.rollout.observations@.push(self.observation)
        &&& after.rollout.actions@ == self.rollout.actions@.push(decision.action)
        &&& after.rollout.log_probabilities@ == self.rollout.log_probabilities@.push(
            decision.log_probability,
        )
        &&& after.rollout.values@ == self.rollout.values@.push(decision.value)
        &&& after.rollout.rewards@ == self.rollout.rewards@.push(step.reward)
        &&& after.rollout.dones@ == self.rollout.dones@.push(step.done)
        &&& after.rollout.is_fallens@ == self.rollout.is_fallens@.push(step.is_fallen)
        &&& after.rollout.cumulative_rewards@ == self.rollout.cumulative_rewards@.push(earned)
        &&& after.rollout.total_fallen == self.rollout.total_fallen
        &&& after.rollout.total_reward == self.rollout.total_reward
        &&& after.rollout.total_episodes == self.rollout.total_episodes
        &&& after.current_episode_rewards@ == picked(
            step.done@,
            earned@,
            repeated(Single::of(ZERO), step.done@.len()),
        )
        &&& after.observation@ == picked(step.done@, step.observation@, reset_observation@)
        &&& EnvironmentState::exchanged(step.state, step.done@, reset_state, after.state)
    }

    /// Records a step, and starts the environments whose episode it ended afresh.
    ///
    /// `earned` is what each environment has earned since the start of its episode, this step
    /// included; `reset_observation` and `reset_state` are a fresh start of every environment.
    pub fn record(
        self,
        decision: Decision,
        step: TrainingStep,
        earned: Vec<Single>,
        reset_observation: Vec<Vec<Single>>,
        reset_state: PhysicsState,
    ) -> (after: Self)
        requires
            step.observation@.len() == step.done@.len(),
            step.state.has_environments(step.done@.len()),
            earned@.len() == step.done@.len(),
            reset_observation@.len() == step.done@.len(),
            reset_state.has_environments(step.done@.len()),
        ensures
            self.recorded(decision, step, earned, reset_observation, reset_state, after),
    {
        filed(
            self.rollout,
            self.observation,
            self.rollout_length,
            decision,
            step,
            earned,
            reset_observation,
            reset_state,
            Ghost(self),
        )
    }

    /// Takes the next step of the rollout in `count` environments, or gives nothing where the agent
    /// decides nothing or a fresh start is drawn outside its range.
    pub fn turn<A: Arithmetic, C: Chance, P: Policy>(
        self,
        env: &TrainingEnv,
        arithmetic: &A,
        chance: &C,
        policy: &P,
        behavior: &Behavior,
        count: usize,
    ) -> (r: Option<Self>)
        requires
            env.wf(),
            self.wf(*env, count as nat),
            self.rollout.dones@.len() < self.rollout_length,
            behavior.fits(
                self.rollout_length as nat,
                count as nat,
                (4 * env.walker.n_particles) as nat,
                env.walker.joint_pairs@.len(),
            ),
        ensures
            turned(*env, *arithmetic, *chance, *policy, *behavior, count as nat, self, r),
            r matches Some(after) ==> {
                &&& after.wf(*env, count as nat)
                &&& after.rollout.dones@.len() == self.rollout.dones@.len() + 1
                &&& after.rollout_length == self.rollout_length
                &&& shows(env.walker, *arithmetic, after.state, after.observation@)
            },
    {
        let ghost before = self;
        let taken = self.rollout.dones.len();
        let outcome = behavior.decide(arithmetic, policy, taken, &self.observation);
        assert(decided(
            *arithmetic,
            *policy,
            *behavior,
            taken as int,
            before.observation@,
            outcome,
        ));
        let decision = match outcome {
            Some(decision) => decision,
            None => {
                return None;
            },
        };
        let ghost chosen = decision;
        let step = env.step(arithmetic, self.state, &decision.action);
        let ghost led_to = step;
        let earned = sums(arithmetic, &self.current_episode_rewards, &step.reward);
        let fresh = env.reset(count, arithmetic, chance);
        let ghost restart = fresh;
        assert(stepped(*env, *arithmetic, before.state, chosen.action@, led_to));
        assert(have_earned(
            *arithmetic,
            before.current_episode_rewards@,
            led_to.reward@,
            earned@,
        ));
        assert(was_reset(*env, *arithmetic, *chance, count as nat, restart));
        let r = match fresh {
            Some((reset_observation, reset_state)) => {
                let after = filed(
                    self.rollout,
                    self.observation,
                    self.rollout_length,
                    decision,
                    step,
                    earned,
                    reset_observation,
                    reset_state,
                    Ghost(before),
                );
                proof {
                    lemma_recording_goes_on(
                        *env,
                        *arithmetic,
                        *chance,
                        count as nat,
                        before,
                        chosen,
                        led_to,
                        earned,
                        reset_observation,
                        reset_state,
                        after,
                    );
                }
                Some(after)
            },
            None => None,
        };
        assert(went_on(*env, *arithmetic, *chance, count as nat, before, chosen, r));
        r
    }
}

/// Files a step that was taken from `before`.
fn filed(
    rollout: Rollout,
    observation: Vec<Vec<Single>>,
    rollout_length: usize,
    decision: Decision,
    step: TrainingStep,
    earned: Vec<Single>,
    reset_observation: Vec<Vec<Single>>,
    reset_state: PhysicsState,
    Ghost(before): Ghost<Collector>,
) -> (after: Collector)
    requires
        before.rollout == rollout,
        before.observation == observation,
        before.rollout_length == rollout_length,
        step.observation@.len() == step.done@.len(),
        step.state.has_environments(step.done@.len()),
        earned@.len() == step.done@.len(),
        reset_observation@.len() == step.done@.len(),
        reset_state.has_environments(step.done@.len()),
    ensures
        before.recorded(decision, step, earned, reset_observation, reset_state, after),
{
    let zeros = filled(earned.len(), Single { bits: ZERO });
    let kept = copied(&earned);
    let mut rollout = rollout;
    let current_episode_rewards = pick(&step.done, kept, zeros);
    let fresh_observation = pick(&step.done, step.observation, reset_observation);
    let state = step.state.mask_where(&step.done, reset_state);
    rollout.push(
        observation,
        decision.action,
        decision.log_probability,
        decision.value,
        step.reward,
        step.done,
        step.is_fallen,
        earned,
    );
    Collector {
        rollout,
        observation: fresh_observation,
        state,
        current_episode_rewards,
        rollout_length,
    }
}

/// What each environment has earned, a step included.
pub open spec fn have_earned<A: Arithmetic>(
    arithmetic: A,
    before: Seq<Single>,
    reward: Seq<Single>,
    earned: Seq<Single>,
) -> bool {
    &&& earned.len() == before.len()
    &&& forall|m: Operations| #[trigger]
        m.describes(arithmetic) ==> earned == m.sums(before, reward)
}

/// What is recorded from a step and a fresh start keeps its shape and shows its state.
proof fn lemma_recording_goes_on<A: Arithmetic, C: Chance>(
    env: TrainingEnv,
    arithmetic: A,
    chance: C,
    count: nat,
    before: Collector,
    decision: Decision,
    step: TrainingStep,
    earned: Vec<Single>,
    reset_observation: Vec<Vec<Single>>,
    reset_state: PhysicsState,
    after: Collector,
)
    requires
        env.wf(),
        before.wf(env, count),
        before.rollout.dones@.len() < before.rollout_length,
        decision.fits(count, env.walker.joint_pairs@.len()),
        stepped(env, arithmetic, before.state, decision.action@, step),
        earned@.len() == count,
        was_reset(env, arithmetic, chance, count, Some((reset_observation, reset_state))),
        before.recorded(decision, step, earned, reset_observation, reset_state, after),
    ensures
        after.wf(env, count),
        shows(env.walker, arithmetic, after.state, after.observation@),
{
    let particles = env.walker.n_particles as nat;
    let done = step.done@;
    assert(step.state.holds(count, particles));
    assert(reset_state.holds(count, particles));
    law_exchanging_keeps_the_shape(step.state, done, reset_state, after.state, particles);
    assert forall|b: int| 0 <= b < count implies sees(
        env.walker,
        arithmetic,
        after.state.positions@[b]@,
        after.state.velocities@[b]@,
        (#[trigger] after.observation@[b])@,
    ) by {
        assert(sees(
            env.walker,
            arithmetic,
            step.state.positions@[b]@,
            step.state.velocities@[b]@,
            step.observation@[b]@,
        ));
        assert(sees(
            env.walker,
            arithmetic,
            reset_state.positions@[b]@,
            reset_state.velocities@[b]@,
            reset_observation@[b]@,
        ));
    }
    assert forall|b: int| 0 <= b < count implies (#[trigger] after.observation@[b])@.len() == 4
        * particles by {
        assert(after.state.positions@[b]@.len() == particles);
    }
    assert forall|b: int| 0 <= b < count && #[trigger] done[b] implies is_fresh(after.state, b)
        && after.current_episode_rewards@[b] == Single::of(ZERO) by {
        assert(after.state.positions@[b] == reset_state.positions@[b]);
        assert(is_fresh(reset_state, b));
    }
    assert(after.has_restarted(after.rollout.dones@.last()@));
    lemma_rows_grow(before.rollout, after.rollout, env, count);
}

/// A record with one more entry of the right shape in each list has the right shape.
proof fn lemma_rows_grow(before: Rollout, after: Rollout, env: TrainingEnv, count: nat)
    requires
        before.has_steps(before.dones@.len()),
        after.has_steps(before.dones@.len() + 1),
        before.has_rows(count, (4 * env.walker.n_particles) as nat, env.walker.joint_pairs@.len()),
        forall|t: int|
            0 <= t < before.dones@.len() ==> {
                &&& #[trigger] after.observations@[t] == before.observations@[t]
                &&& after.actions@[t] == before.actions@[t]
                &&& after.log_probabilities@[t] == before.log_probabilities@[t]
                &&& after.values@[t] == before.values@[t]
                &&& after.rewards@[t] == before.rewards@[t]
                &&& after.dones@[t] == before.dones@[t]
                &&& after.is_fallens@[t] == before.is_fallens@[t]
                &&& after.cumulative_rewards@[t] == before.cumulative_rewards@[t]
            },
        is_grid(after.observations@.last()@, count, (4 * env.walker.n_particles) as nat),
        is_grid(after.actions@.last()@, count, env.walker.joint_pairs@.len()),
        after.log_probabilities@.last()@.len() == count,
        after.values@.last()@.len() == count,
        after.rewards@.last()@.len() == count,
        after.dones@.last()@.len() == count,
        after.is_fallens@.last()@.len() == count,
        after.cumulative_rewards@.last()@.len() == count,
    ensures
        after.has_rows(count, (4 * env.walker.n_particles) as nat, env.walker.joint_pairs@.len()),
{
    let n = before.dones@.len() as int;
    assert forall|t: int| 0 <= t < n + 1 implies {
        &&& is_grid(
            (#[trigger] after.observations@[t])@,
            count,
            (4 * env.walker.n_particles) as nat,
        )
        &&& is_grid(after.actions@[t]@, count, env.walker.joint_pairs@.len())
        &&& after.log_probabilities@[t]@.len() == count
        &&& after.values@[t]@.len() == count
        &&& after.rewards@[t]@.len() == count
        &&& after.dones@[t]@.len() == count
        &&& after.is_fallens@[t]@.len() == count
        &&& after.cumulative_rewards@[t]@.len() == count
    } by {
        if t < n {
            assert(is_grid(
                before.observations@[t]@,
                count,
                (4 * env.walker.n_particles) as nat,
            ));
            assert(is_grid(before.actions@[t]@, count, env.walker.joint_pairs@.len()));
            assert(before.log_probabilities@[t]@.len() == count);
            assert(before.values@[t]@.len() == count);
            assert(before.rewards@[t]@.len() == count);
            assert(before.dones@[t]@.len() == count);
            assert(before.is_fallens@[t]@.len() == count);
            assert(before.cumulative_rewards@[t]@.len() == count);
        }
    }
    assert forall|t: int| 0 <= t < n + 1 implies is_grid(
        (#[trigger] after.actions@[t])@,
        count,
        env.walker.joint_pairs@.len(),
    ) by {
        assert(is_grid(
            after.observations@[t]@,
            count,
            (4 * env.walker.n_particles) as nat,
        ));
    }
    assert forall|t: int|
        #![trigger after.log_probabilities@[t]]
        #![trigger after.values@[t]]
        #![trigger after.rewards@[t]]
        #![trigger after.dones@[t]]
        #![trigger after.is_fallens@[t]]
        #![trigger after.cumulative_rewards@[t]]
        0 <= t < n + 1 implies {
        &&& after.log_probabilities@[t]@.len() == count
        &&& after.values@[t]@.len() == count
        &&& after.rewards@[t]@.len() == count
        &&& after.dones@[t]@.len() == count
        &&& after.is_fallens@[t]@.len() == count
        &&& after.cumulative_rewards@[t]@.len() == count
    } by {
        assert(is_grid(
            after.observations@[t]@,
            count,
            (4 * env.walker.n_particles) as nat,
        ));
    }
}

/// What follows a decision: the environments take the step, its reward is added to what was earned, and
/// the step is recorded with a fresh start of the environments. There is nothing where that is drawn
/// outside its range.
pub open spec fn went_on<A: Arithmetic, C: Chance>(
    env: TrainingEnv,
    arithmetic: A,
    chance: C,
    count: nat,
    before: Collector,
    decision: Decision,
    r: Option<Collector>,
) -> bool {
    exists|
        step: TrainingStep,
        earned: Vec<Single>,
        fresh: Option<(Vec<Vec<Single>>, PhysicsState)>,
    |
        {
            &&& #[trigger] stepped(env, arithmetic, before.state, decision.action@, step)
            &&& #[trigger] have_earned(
                arithmetic,
                before.current_episode_rewards@,
                step.reward@,
                earned@,
            )
            &&& #[trigger] was_reset(env, arithmetic, chance, count, fresh)
            &&& r is Some <==> fresh is Some
            &&& r matches Some(after) ==> before.recorded(
                decision,
                step,
                earned,
                (fresh->0).0,
                (fresh->0).1,
                after,
            )
        }
}

/// What one step of a rollout makes of `before`: the agent decides, the environments take the step, and
/// what it led to is recorded. There is nothing where the agent decides nothing.
pub open spec fn turned<A: Arithmetic, C: Chance, P: Policy>(
    env: TrainingEnv,
    arithmetic: A,
    chance: C,
    policy: P,
    behavior: Behavior,
    count: nat,
    before: Collector,
    r: Option<Collector>,
) -> bool {
    exists|outcome: Option<Decision>|
        {
            &&& #[trigger] decided(
                arithmetic,
                policy,
                behavior,
                before.rollout.dones@.len() as int,
                before.observation@,
                outcome,
            )
            &&& match outcome {
                Some(decision) => went_on(env, arithmetic, chance, count, before, decision, r),
                None => r is None,
            }
        }
}

/// Each collector but the first is what one step makes of the one before it.
pub open spec fn is_run<A: Arithmetic, C: Chance, P: Policy>(
    env: TrainingEnv,
    arithmetic: A,
    chance: C,
    policy: P,
    behavior: Behavior,
    count: nat,
    turns: Seq<Collector>,
) -> bool {
    &&& turns.len() > 0
    &&& forall|k: int|
        0 <= k < turns.len() - 1 ==> turned(
            env,
            arithmetic,
            chance,
            policy,
            behavior,
            count,
            #[trigger] turns[k],
            Some(turns[k + 1]),
        )
}

/// A rollout as it ends: after all its steps, with totals where they are wanted, or, where a step gives
/// nothing, with nothing.
pub open spec fn collected<A: Arithmetic, C: Chance, P: Policy>(
    env: TrainingEnv,
    arithmetic: A,
    chance: C,
    policy: P,
    behavior: Behavior,
    config: ProximalPolicyOptimizationConfig,
    compute_metrics: bool,
    turns: Seq<Collector>,
    r: Option<Collector>,
) -> bool {
    match r {
        Some(end) => {
            &&& turns.len() == config.rollout_length + 1
            &&& end.observation == turns.last().observation
            &&& end.state == turns.last().state
            &&& end.current_episode_rewards == turns.last().current_episode_rewards
            &&& !compute_metrics ==> end.rollout == turns.last().rollout
            &&& compute_metrics ==> exists|number: Single|
                {
                    &&& #[trigger] is_total(arithmetic, turns.last().rollout, number)
                    &&& turns.last().rollout.totalled(number, end.rollout)
                }
        },
        None => {
            &&& turns.len() <= config.rollout_length
            &&& turned(
                env,
                arithmetic,
                chance,
                policy,
                behavior,
                config.environments_count as nat,
                turns.last(),
                None,
            )
        },
    }
}

/// All lanes of `steps` masks of `count` lanes each.
proof fn lemma_lanes_of_steps(masks: Seq<Vec<bool>>, steps: int, count: nat)
    requires
        0 <= steps <= masks.len(),
        are_even(masks, count),
    ensures
        lanes_in(masks, steps) == steps * count,
    decreases steps,
{
    if steps > 0 {
        lemma_lanes_of_steps(masks, steps - 1, count);
        assert(masks[steps - 1]@.len() == count);
        assert(steps * count == (steps - 1) * count + count) by (nonlinear_arith);
    } else {
        assert(0 * count == 0) by (nonlinear_arith);
    }
}

/// The rewards of the finished episodes of a record together.
fn finished_reward<A: Arithmetic>(
    arithmetic: &A,
    rollout: &Rollout,
    Ghost(count): Ghost<nat>,
) -> (r: Single)
    requires
        rollout.cumulative_rewards@.len() == rollout.dones@.len(),
        are_even(rollout.dones@, count),
        are_even(rollout.cumulative_rewards@, count),
    ensures
        is_total(*arithmetic, *rollout, r),
{
    let ended = join_marks(&rollout.dones);
    let earned = join_numbers(&rollout.cumulative_rewards);
    proof {
        let steps = rollout.dones@.len() as int;
        lemma_joined_length(rollout.dones@, steps, count);
        lemma_joined_length(rollout.cumulative_rewards@, steps, count);
    }
    total(arithmetic, &products(arithmetic, &ended, &earned))
}

/// A rollout of the environments from where they are: a run of as many steps as are set, that starts from what
/// is given.
pub open spec fn was_collected<A: Arithmetic, C: Chance, P: Policy>(
    env: TrainingEnv,
    arithmetic: A,
    chance: C,
    policy: P,
    behavior: Behavior,
    config: ProximalPolicyOptimizationConfig,
    observation: Vec<Vec<Single>>,
    state: PhysicsState,
    current_episode_rewards: Vec<Single>,
    compute_metrics: bool,
    r: Option<Collector>,
) -> bool {
    exists|turns: Seq<Collector>|
        {
            &&& #[trigger] is_run(
                env,
                arithmetic,
                chance,
                policy,
                behavior,
                config.environments_count as nat,
                turns,
            )
            &&& turns[0].starts(
                observation,
                state,
                current_episode_rewards,
                config.rollout_length,
            )
            &&& collected(
                env,
                arithmetic,
                chance,
                policy,
                behavior,
                config,
                compute_metrics,
                turns,
                r,
            )
        }
}

/// Collects a rollout of the environments from where they are, with totals where they are wanted, or
/// gives nothing where the agent decides nothing or a fresh start is drawn outside its range.
pub fn collect_rollout<A: Arithmetic, C: Chance, P: Policy>(
    policy: &P,
    behavior: &Behavior,
    env: &TrainingEnv,
    arithmetic: &A,
    chance: &C,
    observation: Vec<Vec<Single>>,
    state: PhysicsState,
    current_episode_rewards: Vec<Single>,
    config: &ProximalPolicyOptimizationConfig,
    compute_metrics: bool,
) -> (r: Option<Collector>)
    requires
        env.wf(),
        fits(config.rollout_length as int),
        config.samples() <= usize::MAX,
        is_grid(
            observation@,
            config.environments_count as nat,
            (4 * env.walker.n_particles) as nat,
        ),
        state.holds(config.environments_count as nat, env.walker.n_particles as nat),
        current_episode_rewards@.len() == config.environments_count,
        behavior.fits(
            config.rollout_length as nat,
            config.environments_count as nat,
            (4 * env.walker.n_particles) as nat,
            env.walker.joint_pairs@.len(),
        ),
    ensures
        exists|turns: Seq<Collector>|
            {
                &&& #[trigger] is_run(
                    *env,
                    *arithmetic,
                    *chance,
                    *policy,
                    *behavior,
                    config.environments_count as nat,
                    turns,
                )
                &&& turns[0].starts(
                    observation,
                    state,
                    current_episode_rewards,
                    config.rollout_length,
                )
                &&& collected(
                    *env,
                    *arithmetic,
                    *chance,
                    *policy,
                    *behavior,
                    *config,
                    compute_metrics,
                    turns,
                    r,
                )
            },
        was_collected(
            *env,
            *arithmetic,
            *chance,
            *policy,
            *behavior,
            *config,
            observation,
            state,
            current_episode_rewards,
            compute_metrics,
            r,
        ),
        r matches Some(end) ==> {
            &&& end.wf(*env, config.environments_count as nat)
            &&& end.rollout.has_steps(config.rollout_length as nat)
            &&& config.rollout_length > 0 ==> shows(
                env.walker,
                *arithmetic,
                end.state,
                end.observation@,
            )
        },
{
    let count = config.environments_count;
    let mut collector = Collector::new(
        Ghost(*env),
        observation,
        state,
        current_episode_rewards,
        config.rollout_length,
    );
    let ghost mut turns: Seq<Collector> = seq![collector];
    while collector.rollout.dones.len() < config.rollout_length
        invariant
            env.wf(),
            count == config.environments_count,
            behavior.fits(
                config.rollout_length as nat,
                count as nat,
                (4 * env.walker.n_particles) as nat,
                env.walker.joint_pairs@.len(),
            ),
            collector.wf(*env, count as nat),
            collector.rollout_length == config.rollout_length,
            collector.rollout.dones@.len() > 0 ==> shows(
                env.walker,
                *arithmetic,
                collector.state,
                collector.observation@,
            ),
            turns.len() == collector.rollout.dones@.len() + 1,
            turns.last() == collector,
            turns[0].starts(
                observation,
                state,
                current_episode_rewards,
                config.rollout_length,
            ),
            is_run(*env, *arithmetic, *chance, *policy, *behavior, count as nat, turns),
        decreases config.rollout_length - collector.rollout.dones@.len(),
    {
        let ghost before = turns;
        match collector.turn(env, arithmetic, chance, policy, behavior, count) {
            Some(after) => {
                proof {
                    turns = turns.push(after);
                    assert forall|k: int| 0 <= k < turns.len() - 1 implies turned(
                        *env,
                        *arithmetic,
                        *chance,
                        *policy,
                        *behavior,
                        count as nat,
                        #[trigger] turns[k],
                        Some(turns[k + 1]),
                    ) by {
                        if k < before.len() - 1 {
                            assert(turns[k] == before[k]);
                            assert(turns[k + 1] == before[k + 1]);
                        }
                    }
                }
                collector = after;
            },
            None => {
                assert(collected(
                    *env,
                    *arithmetic,
                    *chance,
                    *policy,
                    *behavior,
                    *config,
                    compute_metrics,
                    turns,
                    None,
                ));
                return None;
            },
        }
    }
    if compute_metrics {
        let number = finished_reward(arithmetic, &collector.rollout, Ghost(count as nat));
        proof {
            let dones = collector.rollout.dones@;
            lemma_lanes_of_steps(dones, dones.len() as int, count as nat);
            assert(config.rollout_length * count == config.environments_count
                * config.rollout_length) by (nonlinear_arith)
                requires
                    count == config.environments_count,
            ;
            assert(collector.rollout.has_masks());
        }
        collector.rollout.total_up(number);
    }
    proof {
        assert(collected(
            *env,
            *arithmetic,
            *chance,
            *policy,
            *behavior,
            *config,
            compute_metrics,
            turns,
            Some(collector),
        ));
    }
    Some(collector)
}

/// What recording a step leaves of environment `b`: where the step ended its episode, the fresh start, and
/// nothing earned; elsewhere what the step led to, and what has been earned with it. The step itself is added
/// to the record as it was, after all that stands there.
pub proof fn law_ended_episodes_start_afresh(
    before: Collector,
    decision: Decision,
    step: TrainingStep,
    earned: Vec<Single>,
    reset_observation: Vec<Vec<Single>>,
    reset_state: PhysicsState,
    after: Collector,
    b: int,
    t: int,
)
    requires
        before.recorded(decision, step, earned, reset_observation, reset_state, after),
        before.rollout.has_steps(before.rollout.dones@.len()),
        0 <= b < step.done@.len(),
        0 <= t < before.rollout.dones@.len(),
        step.observation@.len() == step.done@.len(),
        step.state.has_environments(step.done@.len()),
        earned@.len() == step.done@.len(),
        reset_observation@.len() == step.done@.len(),
        reset_state.has_environments(step.done@.len()),
    ensures
        step.done@[b] ==> {
            &&& after.observation@[b] == reset_observation@[b]
            &&& after.state.positions@[b] == reset_state.positions@[b]
            &&& after.state.velocities@[b] == reset_state.velocities@[b]
            &&& after.state.time@[b] == reset_state.time@[b]
            &&& after.state.target_velocity@[b] == reset_state.target_velocity@[b]
            &&& after.current_episode_rewards@[b].value() == 0
        },
        !step.done@[b] ==> {
            &&& after.observation@[b] == step.observation@[b]
            &&& after.state.positions@[b] == step.state.positions@[b]
            &&& after.state.velocities@[b] == step.state.velocities@[b]
            &&& after.state.time@[b] == step.state.time@[b]
            &&& after.state.target_velocity@[b] == step.state.target_velocity@[b]
            &&& after.current_episode_rewards@[b] == earned@[b]
        },
        after.rollout.dones@.len() == before.rollout.dones@.len() + 1,
        after.rollout.observations@.last() == before.observation,
        after.rollout.actions@.last() == decision.action,
        after.rollout.log_probabilities@.last() == decision.log_probability,
        after.rollout.values@.last() == decision.value,
        after.rollout.rewards@.last() == step.reward,
        after.rollout.dones@.last() == step.done,
        after.rollout.is_fallens@.last() == step.is_fallen,
        after.rollout.cumulative_rewards@.last() == earned,
        after.rollout.observations@[t] == before.rollout.observations@[t],
        after.rollout.actions@[t] == before.rollout.actions@[t],
        after.rollout.log_probabilities@[t] == before.rollout.log_probabilities@[t],
        after.rollout.values@[t] == before.rollout.values@[t],
        after.rollout.rewards@[t] == before.rollout.rewards@[t],
        after.rollout.dones@[t] == before.rollout.dones@[t],
        after.rollout.is_fallens@[t] == before.rollout.is_fallens@[t],
        after.rollout.cumulative_rewards@[t] == before.rollout.cumulative_rewards@[t],
{
    assert(Single::of(ZERO).value() == 0);
}

/// What an environment has earned grows by the reward of each step, where that is not rounded.
pub proof fn law_earnings_grow_by_the_reward<A: Arithmetic>(
    arithmetic: A,
    m: Operations,
    before: Seq<Single>,
    reward: Seq<Single>,
    earned: Seq<Single>,
    b: int,
)
    requires
        m.describes(arithmetic),
        have_earned(arithmetic, before, reward, earned),
        0 <= b < before.len(),
        sum_is_exact(m, before[b], reward[b]),
    ensures
        earned[b].value() == before[b].value() + reward[b].value(),
{
}

/// One step of a rollout: the agent decides by what it sees, the environments take the step by what it
/// decided, from the state that they are in, and what they have earned grows by the rewards.
pub proof fn law_turns_decide_step_and_record<A: Arithmetic, C: Chance, P: Policy>(
    env: TrainingEnv,
    arithmetic: A,
    chance: C,
    policy: P,
    behavior: Behavior,
    count: nat,
    before: Collector,
    after: Collector,
)
    requires
        turned(env, arithmetic, chance, policy, behavior, count, before, Some(after)),
    ensures
        exists|
            decision: Decision,
            step: TrainingStep,
            earned: Vec<Single>,
            fresh: (Vec<Vec<Single>>, PhysicsState),
        |
            {
                &&& decided(
                    arithmetic,
                    policy,
                    behavior,
                    before.rollout.dones@.len() as int,
                    before.observation@,
                    Some(decision),
                )
                &&& stepped(env, arithmetic, before.state, decision.action@, step)
                &&& have_earned(
                    arithmetic,
                    before.current_episode_rewards@,
                    step.reward@,
                    earned@,
                )
                &&& was_reset(env, arithmetic, chance, count, Some(fresh))
                &&& #[trigger] before.recorded(decision, step, earned, fresh.0, fresh.1, after)
            },
{
    let outcome = choose|outcome: Option<Decision>|
        {
            &&& #[trigger] decided(
                arithmetic,
                policy,
                behavior,
                before.rollout.dones@.len() as int,
                before.observation@,
                outcome,
            )
            &&& match outcome {
                Some(decision) => went_on(
                    env,
                    arithmetic,
                    chance,
                    count,
                    before,
                    decision,
                    Some(after),
                ),
                None => false,
            }
        };
    let decision = outcome->0;
    assert(went_on(env, arithmetic, chance, count, before, decision, Some(after)));
    let (step, earned, fresh) = choose|
        step: TrainingStep,
        earned: Vec<Single>,
        fresh: Option<(Vec<Vec<Single>>, PhysicsState)>,
    |
        {
            &&& #[trigger] stepped(env, arithmetic, before.state, decision.action@, step)
            &&& #[trigger] have_earned(
                arithmetic,
                before.current_episode_rewards@,
                step.reward@,
                earned@,
            )
            &&& #[trigger] was_reset(env, arithmetic, chance, count, fresh)
            &&& fresh is Some
            &&& before.recorded(decision, step, earned, (fresh->0).0, (fresh->0).1, after)
        };
    let start = fresh->0;
    assert(before.recorded(decision, step, earned, start.0, start.1, after));
}

/// What was earned where an episode ended, together, of the first `count` lanes.
pub open spec fn earned_where_ended(ended: Seq<bool>, earned: Seq<Single>, count: int) -> int
    decreases count,
{
    if count <= 0 {
        0
    } else {
        earned_where_ended(ended, earned, count - 1) + if ended[count - 1] {
            earned[count - 1].value()
        } else {
            0
        }
    }
}

/// The rewards of the finished episodes together are what had been earned in each lane and step that ended
/// one, where their total is not rounded.
pub proof fn law_finished_episodes_are_totalled<A: Arithmetic>(
    arithmetic: A,
    m: Operations,
    rollout: Rollout,
    number: Single,
)
    requires
        m.describes(arithmetic),
        multiplies_faithfully(m),
        is_total(arithmetic, rollout, number),
        ({
            let ended = joined(rollout.dones@, rollout.dones@.len() as int);
            let earned = joined(
                rollout.cumulative_rewards@,
                rollout.cumulative_rewards@.len() as int,
            );
            &&& ended.len() == earned.len()
            &&& forall|i: int| 0 <= i < earned.len() ==> finite(#[trigger] earned[i])
            &&& total_is_exact(m, m.products(marks(rollout.dones@), earned))
        }),
    ensures
        ({
            let ended = joined(rollout.dones@, rollout.dones@.len() as int);
            let earned = joined(
                rollout.cumulative_rewards@,
                rollout.cumulative_rewards@.len() as int,
            );
            number.value() == earned_where_ended(ended, earned, ended.len() as int)
        }),
{
    let ended = joined(rollout.dones@, rollout.dones@.len() as int);
    let earned = joined(
        rollout.cumulative_rewards@,
        rollout.cumulative_rewards@.len() as int,
    );
    let parts = m.products(marks(rollout.dones@), earned);
    let (one, zero) = (Single::of(ONE), Single::of(ZERO));
    assert(zero.value() == 0);
    assert forall|i: int| 0 <= i < ended.len() implies (#[trigger] parts[i]).value() == (
    if ended[i] {
        earned[i].value()
    } else {
        0
    }) by {
        let x = earned[i];
        assert(finite(x));
        if ended[i] {
            assert(parts[i] == (m.product)(one, x));
            assert(unit() * x.value() == x.value() * unit()) by (nonlinear_arith);
            law_products_stay_between(m, one, x, x, x);
        } else {
            assert(parts[i] == (m.product)(zero, x));
            assert(0 * x.value() == 0 && 0 * unit() == 0) by (nonlinear_arith);
            law_products_stay_between(m, zero, x, zero, zero);
        }
    }
    lemma_earned_total(ended, earned, parts, ended.len() as int);
    assert(parts.take(ended.len() as int) =~= parts);
}

proof fn lemma_earned_total(
    ended: Seq<bool>,
    earned: Seq<Single>,
    parts: Seq<Single>,
    count: int,
)
    requires
        0 <= count <= parts.len(),
        forall|i: int|
            0 <= i < parts.len() ==> (#[trigger] parts[i]).value() == (if ended[i] {
                earned[i].value()
            } else {
                0
            }),
    ensures
        values_total(parts.take(count)) == earned_where_ended(ended, earned, count),
    decreases count,
{
    if count > 0 {
        lemma_earned_total(ended, earned, parts, count - 1);
        assert(parts.take(count).drop_last() =~= parts.take(count - 1));
    }
}

/// A further step counts as many more episodes as it ended, and as many more falls as these were.
pub proof fn law_every_ended_episode_counts(
    dones: Seq<Vec<bool>>,
    falls: Seq<Vec<bool>>,
    done: Vec<bool>,
    fallen: Vec<bool>,
    lane: int,
    count: int,
)
    requires
        dones.len() == falls.len(),
        0 <= lane < count == done@.len() == fallen@.len(),
    ensures
        both_set_in(dones.push(done), falls.push(fallen), dones.len() as int + 1) == both_set_in(
            dones,
            falls,
            dones.len() as int,
        ) + both_set(done@, fallen@, count),
        both_set(done@, fallen@, lane + 1) == both_set(done@, fallen@, lane) + if done@[lane]
            && fallen@[lane] {
            1int
        } else {
            0
        },
        both_set(done@, fallen@, 0) == 0,
        both_set_in(dones, falls, 0) == 0,
{
    lemma_counts_of_fewer(dones, falls, dones.push(done), falls.push(fallen), dones.len() as int);
}

proof fn lemma_counts_of_fewer(
    a: Seq<Vec<bool>>,
    b: Seq<Vec<bool>>,
    c: Seq<Vec<bool>>,
    d: Seq<Vec<bool>>,
    steps: int,
)
    requires
        steps <= a.len(),
        forall|t: int| 0 <= t < steps ==> #[trigger] a[t] == c[t],
        forall|t: int| 0 <= t < steps ==> #[trigger] b[t] == d[t],
    ensures
        both_set_in(a, b, steps) == both_set_in(c, d, steps),
    decreases steps,
{
    if steps > 0 {
        lemma_counts_of_fewer(a, b, c, d, steps - 1);
        assert(a[steps - 1] == c[steps - 1]);
        assert(b[steps - 1] == d[steps - 1]);
    }
}

/// A rollout starts with nothing on record from the state and the observations that are given, takes one step
/// after the other, as many as are set, and ends with the record of these, from which the totals are made
/// where they are wanted and only there.
pub proof fn law_rollouts_take_as_many_steps_as_are_set<A: Arithmetic, C: Chance, P: Policy>(
    env: TrainingEnv,
    arithmetic: A,
    chance: C,
    policy: P,
    behavior: Behavior,
    config: ProximalPolicyOptimizationConfig,
    observation: Vec<Vec<Single>>,
    state: PhysicsState,
    current_episode_rewards: Vec<Single>,
    compute_metrics: bool,
    end: Collector,
)
    requires
        was_collected(
            env,
            arithmetic,
            chance,
            policy,
            behavior,
            config,
            observation,
            state,
            current_episode_rewards,
            compute_metrics,
            Some(end),
        ),
    ensures
        exists|turns: Seq<Collector>|
            {
                let last = turns[config.rollout_length as int];
                &&& #[trigger] turns.len() == config.rollout_length + 1
                &&& turns[0].state == state
                &&& turns[0].observation == observation
                &&& turns[0].current_episode_rewards == current_episode_rewards
                &&& turns[0].rollout.dones@.len() == 0
                &&& turns[0].rollout.total_episodes == 0
                &&& forall|k: int|
                    0 <= k < config.rollout_length ==> turned(
                        env,
                        arithmetic,
                        chance,
                        policy,
                        behavior,
                        config.environments_count as nat,
                        #[trigger] turns[k],
                        Some(turns[k + 1]),
                    )
                &&& end.state == last.state
                &&& end.observation == last.observation
                &&& end.current_episode_rewards == last.current_episode_rewards
                &&& end.rollout.rewards == last.rollout.rewards
                &&& end.rollout.dones == last.rollout.dones
                &&& end.rollout.observations == last.rollout.observations
                &&& end.rollout.actions == last.rollout.actions
                &&& end.rollout.values == last.rollout.values
                &&& end.rollout.log_probabilities == last.rollout.log_probabilities
                &&& !compute_metrics ==> end.rollout.total_episodes == last.rollout.total_episodes
                &&& compute_metrics && last.rollout.episodes() > 0 ==> {
                    &&& end.rollout.total_episodes == as_counted(last.rollout.episodes())
                    &&& end.rollout.total_fallen == as_counted(last.rollout.falls())
                    &&& is_total(arithmetic, last.rollout, end.rollout.total_reward)
                }
            },
{
    let turns = choose|turns: Seq<Collector>|
        {
            &&& #[trigger] is_run(
                env,
                arithmetic,
                chance,
                policy,
                behavior,
                config.environments_count as nat,
                turns,
            )
            &&& turns[0].starts(
                observation,
                state,
                current_episode_rewards,
                config.rollout_length,
            )
            &&& collected(
                env,
                arithmetic,
                chance,
                policy,
                behavior,
                config,
                compute_metrics,
                turns,
                Some(end),
            )
        };
    assert(turns.len() == config.rollout_length + 1);
    assert(turns.last() == turns[config.rollout_length as int]);
}

} // verus!
