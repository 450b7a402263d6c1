//! Generalized advantage estimation.

use crate::arithmetic::{difference, product, sum, sums, Arithmetic, Operations};
use crate::fidelity::{
    difference_is_exact, finite, is_faithful, law_products_stay_between, law_sums_stay_between,
    lemma_cancel, lemma_unit_is_positive, product_is_exact, sum_is_exact, unit,
};
use crate::joining::{
    are_even, join_numbers, law_joined_lists_keep_their_order, lemma_joined_length, mark,
};
use crate::lanes::{copied, filled};
use crate::math::is_signed;
use crate::ppo::ProximalPolicyOptimizationConfig;
use crate::single::{law_a_value_has_one_pattern, Single, ONE, ZERO};
use vstd::prelude::*;

verus! {

/// The entries of one environment, step by step.
pub open spec fn column<T>(lists: Seq<Vec<T>>, b: int) -> Seq<T> {
    Seq::new(lists.len(), |t: int| lists[t]@[b])
}

/// Where a step of an environment stands among all samples: the environments of a step one after the
/// other, step after step.
pub open spec fn sample(t: int, b: int, count: nat) -> int {
    t * count + b
}

/// The value of the step after step `t`, which after the last one is `next_value`.
pub open spec fn value_after(values: Seq<Single>, next_value: Single, t: int) -> Single {
    if t + 1 < values.len() {
        values[t + 1]
    } else {
        next_value
    }
}

impl Operations {
    /// What a step brought beyond its value: the reward and, where the episode continues, the
    /// discounted value of the next step, less the value of the step.
    pub open spec fn delta(
        self,
        gamma: Single,
        reward: Single,
        next_value: Single,
        done: bool,
        value: Single,
    ) -> Single {
        let discounted = (self.product)((self.product)(next_value, mark(!done)), gamma);
        (self.difference)((self.sum)(reward, discounted), value)
    }

    /// The advantage of a step: what it brought and, where the episode continues, the discounted
    /// advantage `last` of the next step.
    pub open spec fn discounted(
        self,
        gamma: Single,
        lambda: Single,
        delta: Single,
        last: Single,
        done: bool,
    ) -> Single {
        (self.sum)(
            delta,
            (self.product)((self.product)(last, mark(!done)), (self.product)(gamma, lambda)),
        )
    }

    /// The advantage of step `t` of one environment, which follows from that of the next step, and that
    /// of the last from zero.
    pub open spec fn advantage(
        self,
        gamma: Single,
        lambda: Single,
        rewards: Seq<Single>,
        dones: Seq<bool>,
        values: Seq<Single>,
        next_value: Single,
        t: int,
    ) -> Single
        decreases rewards.len() - t,
    {
        let delta = self.delta(
            gamma,
            rewards[t],
            value_after(values, next_value, t),
            dones[t],
            values[t],
        );
        let last = if t + 1 < rewards.len() {
            self.advantage(gamma, lambda, rewards, dones, values, next_value, t + 1)
        } else {
            Single::of(ZERO)
        };
        self.discounted(gamma, lambda, delta, last, dones[t])
    }
}

/// The advantage of step `t` in environment `b`, by the settings.
pub open spec fn advantage_of(
    m: Operations,
    config: ProximalPolicyOptimizationConfig,
    rewards: Seq<Vec<Single>>,
    dones: Seq<Vec<bool>>,
    values: Seq<Vec<Single>>,
    next_value: Seq<Single>,
    t: int,
    b: int,
) -> Single {
    m.advantage(
        config.gamma,
        config.generalized_advantage_estimation_lambda,
        column(rewards, b),
        column(dones, b),
        column(values, b),
        next_value[b],
        t,
    )
}

/// The lists are the returns and the advantages of all samples: the return of a step is its advantage
/// and its value.
pub open spec fn are_estimates<A: Arithmetic>(
    arithmetic: A,
    config: ProximalPolicyOptimizationConfig,
    rewards: Seq<Vec<Single>>,
    dones: Seq<Vec<bool>>,
    values: Seq<Vec<Single>>,
    next_value: Seq<Single>,
    returned: Seq<Single>,
    advantages: Seq<Single>,
) -> bool {
    let count = next_value.len();
    &&& returned.len() == rewards.len() * count
    &&& advantages.len() == rewards.len() * count
    &&& forall|m: Operations, t: int, b: int| #[trigger]
        m.describes(arithmetic) && 0 <= t < rewards.len() && 0 <= b < count
            ==> #[trigger] advantages[sample(t, b, count)] == advantage_of(
            m,
            config,
            rewards,
            dones,
            values,
            next_value,
            t,
            b,
        )
    &&& forall|m: Operations, t: int, b: int| #[trigger]
        m.describes(arithmetic) && 0 <= t < rewards.len() && 0 <= b < count
            ==> #[trigger] returned[sample(t, b, count)] == (m.sum)(
            advantage_of(m, config, rewards, dones, values, next_value, t, b),
            values[t]@[b],
        )
}

/// The advantages of step `t`, given those of the next.
fn estimated<A: Arithmetic>(
    arithmetic: &A,
    config: &ProximalPolicyOptimizationConfig,
    rewards: &Vec<Vec<Single>>,
    dones: &Vec<Vec<bool>>,
    values: &Vec<Vec<Single>>,
    next_value: &Vec<Single>,
    last: &Vec<Single>,
    t: usize,
) -> (r: Vec<Single>)
    requires
        t < rewards@.len(),
        dones@.len() == rewards@.len(),
        values@.len() == rewards@.len(),
        are_even(rewards@, next_value@.len()),
        are_even(dones@, next_value@.len()),
        are_even(values@, next_value@.len()),
        last@.len() == next_value@.len(),
        forall|m: Operations, b: int| #[trigger]
            m.describes(*arithmetic) && 0 <= b < last@.len() ==> #[trigger] last@[b] == (if t + 1
                < rewards@.len() {
                advantage_of(
                    m,
                    *config,
                    rewards@,
                    dones@,
                    values@,
                    next_value@,
                    t + 1,
                    b,
                )
            } else {
                Single::of(ZERO)
            }),
    ensures
        r@.len() == next_value@.len(),
        forall|m: Operations, b: int| #[trigger]
            m.describes(*arithmetic) && 0 <= b < r@.len() ==> #[trigger] r@[b] == advantage_of(
                m,
                *config,
                rewards@,
                dones@,
                values@,
                next_value@,
                t as int,
                b,
            ),
{
    let (gamma, lambda) = (config.gamma, config.generalized_advantage_estimation_lambda);
    let gae_lambda = product(arithmetic, gamma, lambda);
    let count = next_value.len();
    let mut r: Vec<Single> = Vec::new();
    let mut b: usize = 0;
    assert(rewards@[t as int]@.len() == count);
    assert(dones@[t as int]@.len() == count);
    assert(values@[t as int]@.len() == count);
    while b < count
        invariant
            t < rewards@.len(),
            dones@.len() == rewards@.len(),
            values@.len() == rewards@.len(),
            are_even(values@, next_value@.len()),
            count == next_value@.len(),
            rewards@[t as int]@.len() == count,
            dones@[t as int]@.len() == count,
            values@[t as int]@.len() == count,
            last@.len() == count,
            gamma == config.gamma,
            lambda == config.generalized_advantage_estimation_lambda,
            forall|m: Operations| #[trigger]
                m.describes(*arithmetic) ==> gae_lambda == (m.product)(gamma, lambda),
            forall|m: Operations, b: int| #[trigger]
                m.describes(*arithmetic) && 0 <= b < last@.len() ==> #[trigger] last@[b] == (if t
                    + 1 < rewards@.len() {
                    advantage_of(
                        m,
                        *config,
                        rewards@,
                        dones@,
                        values@,
                        next_value@,
                        t + 1,
                        b,
                    )
                } else {
                    Single::of(ZERO)
                }),
            b <= count,
            r@.len() == b,
            forall|m: Operations, i: int| #[trigger]
                m.describes(*arithmetic) && 0 <= i < b ==> #[trigger] r@[i] == advantage_of(
                    m,
                    *config,
                    rewards@,
                    dones@,
                    values@,
                    next_value@,
                    t as int,
                    i,
                ),
        decreases count - b,
    {
        let mask = if dones[t][b] {
            Single { bits: ZERO }
        } else {
            Single { bits: ONE }
        };
        let following = if t < values.len() - 1 {
            assert(values@[t + 1]@.len() == count);
            values[t + 1][b]
        } else {
            next_value[b]
        };
        let ahead = product(arithmetic, product(arithmetic, following, mask), gamma);
        let delta = difference(arithmetic, sum(arithmetic, rewards[t][b], ahead), values[t][b]);
        let rest = product(arithmetic, product(arithmetic, last[b], mask), gae_lambda);
        let advantage = sum(arithmetic, delta, rest);
        proof {
            assert forall|m: Operations| #[trigger] m.describes(*arithmetic) implies advantage
                == advantage_of(
                m,
                *config,
                rewards@,
                dones@,
                values@,
                next_value@,
                t as int,
                b as int,
            ) by {
                assert(last@[b as int] == (if t + 1 < rewards@.len() {
                    advantage_of(
                        m,
                        *config,
                        rewards@,
                        dones@,
                        values@,
                        next_value@,
                        t + 1,
                        b as int,
                    )
                } else {
                    Single::of(ZERO)
                }));
                assert(column(rewards@, b as int)[t as int] == rewards@[t as int]@[b as int]);
                assert(column(dones@, b as int)[t as int] == dones@[t as int]@[b as int]);
                assert(column(values@, b as int)[t as int] == values@[t as int]@[b as int]);
            }
        }
        r.push(advantage);
        b = b + 1;
    }
    r
}

/// Turns a list around.
fn turned_around<T>(list: Vec<T>) -> (r: Vec<T>)
    ensures
        r@ == list@.reverse(),
{
    let mut rest = list;
    let mut r: Vec<T> = Vec::new();
    while rest.len() > 0
        invariant
            rest@.len() + r@.len() == list@.len(),
            rest@ == list@.take(rest@.len() as int),
            forall|i: int| 0 <= i < r@.len() ==> #[trigger] r@[i] == list@[list@.len() - 1 - i],
        decreases rest@.len(),
    {
        let last = rest.pop().unwrap();
        r.push(last);
    }
    assert(r@ =~= list@.reverse());
    r
}

/// The returns and the advantages of the steps of a rollout, given the rewards, where the episodes
/// ended, the values of the steps, the value of the step after the last, and the settings.
pub fn compute_generalized_advantage_estimation<A: Arithmetic>(
    rewards: &Vec<Vec<Single>>,
    dones: &Vec<Vec<bool>>,
    values: &Vec<Vec<Single>>,
    next_value: &Vec<Single>,
    config: &ProximalPolicyOptimizationConfig,
    arithmetic: &A,
) -> (r: (Vec<Single>, Vec<Single>))
    requires
        rewards@.len() > 0,
        dones@.len() == rewards@.len(),
        values@.len() == rewards@.len(),
        are_even(rewards@, next_value@.len()),
        are_even(dones@, next_value@.len()),
        are_even(values@, next_value@.len()),
    ensures
        are_estimates(
            *arithmetic,
            *config,
            rewards@,
            dones@,
            values@,
            next_value@,
            r.0@,
            r.1@,
        ),
{
    let length = rewards.len();
    let count = next_value.len();
    let mut backwards: Vec<Vec<Single>> = Vec::new();
    let mut last = filled(count, Single { bits: ZERO });
    let mut t: usize = length;
    while t > 0
        invariant
            length == rewards@.len(),
            count == next_value@.len(),
            dones@.len() == length,
            values@.len() == length,
            are_even(rewards@, count as nat),
            are_even(dones@, count as nat),
            are_even(values@, count as nat),
            t <= length,
            last@.len() == count,
            forall|m: Operations, b: int| #[trigger]
                m.describes(*arithmetic) && 0 <= b < last@.len() ==> #[trigger] last@[b] == (if t
                    < length {
                    advantage_of(
                        m,
                        *config,
                        rewards@,
                        dones@,
                        values@,
                        next_value@,
                        t as int,
                        b,
                    )
                } else {
                    Single::of(ZERO)
                }),
            backwards@.len() == length - t,
            are_even(backwards@, count as nat),
            forall|m: Operations, k: int, b: int| #[trigger]
                m.describes(*arithmetic) && 0 <= k < backwards@.len() && 0 <= b < count
                    ==> #[trigger] backwards@[k]@[b] == advantage_of(
                    m,
                    *config,
                    rewards@,
                    dones@,
                    values@,
                    next_value@,
                    length - 1 - k,
                    b,
                ),
        decreases t,
    {
        t = t - 1;
        last = estimated(arithmetic, config, rewards, dones, values, next_value, &last, t);
        backwards.push(copied(&last));
    }
    let steps = turned_around(backwards);
    proof {
        assert forall|k: int| 0 <= k < length implies (#[trigger] steps@[k])@.len() == count by {
            assert(steps@[k] == backwards@[length - 1 - k]);
        }
        lemma_joined_length(steps@, length as int, count as nat);
        lemma_joined_length(values@, length as int, count as nat);
    }
    let advantages = join_numbers(&steps);
    let returned = sums(arithmetic, &advantages, &join_numbers(values));
    proof {
        assert forall|m: Operations, t: int, b: int| #[trigger]
            m.describes(*arithmetic) && 0 <= t < length && 0 <= b
                < count implies #[trigger] advantages@[sample(t, b, count as nat)] == advantage_of(
            m,
            *config,
            rewards@,
            dones@,
            values@,
            next_value@,
            t,
            b,
        ) by {
            law_joined_lists_keep_their_order(steps@, length as int, count as nat, t, b);
            assert(steps@[t] == backwards@[length - 1 - t]);
            assert(backwards@[length - 1 - t]@[b] == advantage_of(
                m,
                *config,
                rewards@,
                dones@,
                values@,
                next_value@,
                t,
                b,
            ));
        }
        assert forall|m: Operations, t: int, b: int| #[trigger]
            m.describes(*arithmetic) && 0 <= t < length && 0 <= b
                < count implies #[trigger] returned@[sample(t, b, count as nat)] == (m.sum)(
            advantage_of(m, *config, rewards@, dones@, values@, next_value@, t, b),
            values@[t]@[b],
        ) by {
            law_joined_lists_keep_their_order(steps@, length as int, count as nat, t, b);
            law_joined_lists_keep_their_order(values@, length as int, count as nat, t, b);
            assert(advantages@[sample(t, b, count as nat)] == advantage_of(
                m,
                *config,
                rewards@,
                dones@,
                values@,
                next_value@,
                t,
                b,
            ));
        }
    }
    (returned, advantages)
}

/// The environments do not influence each other: where the steps of two environments agree, so do their
/// advantages, whatever the other environments did.
pub proof fn law_environments_are_estimated_alone<A: Arithmetic>(
    arithmetic: A,
    m: Operations,
    config: ProximalPolicyOptimizationConfig,
    rewards: Seq<Vec<Single>>,
    dones: Seq<Vec<bool>>,
    values: Seq<Vec<Single>>,
    next_value: Seq<Single>,
    returned: Seq<Single>,
    advantages: Seq<Single>,
    b: int,
    other_rewards: Seq<Vec<Single>>,
    other_dones: Seq<Vec<bool>>,
    other_values: Seq<Vec<Single>>,
    other_next_value: Seq<Single>,
    other_returned: Seq<Single>,
    other_advantages: Seq<Single>,
    c: int,
    t: int,
)
    requires
        m.describes(arithmetic),
        are_estimates(
            arithmetic,
            config,
            rewards,
            dones,
            values,
            next_value,
            returned,
            advantages,
        ),
        are_estimates(
            arithmetic,
            config,
            other_rewards,
            other_dones,
            other_values,
            other_next_value,
            other_returned,
            other_advantages,
        ),
        0 <= b < next_value.len(),
        0 <= c < other_next_value.len(),
        column(rewards, b) == column(other_rewards, c),
        column(dones, b) == column(other_dones, c),
        column(values, b) == column(other_values, c),
        next_value[b] == other_next_value[c],
        0 <= t < rewards.len(),
        rewards.len() == values.len(),
        other_rewards.len() == other_values.len(),
    ensures
        advantages[sample(t, b, next_value.len())] == other_advantages[sample(
            t,
            c,
            other_next_value.len(),
        )],
        returned[sample(t, b, next_value.len())] == other_returned[sample(
            t,
            c,
            other_next_value.len(),
        )],
{
    assert(column(rewards, b).len() == column(other_rewards, c).len());
    assert(column(values, b)[t] == column(other_values, c)[t]);
}

/// Multiplied by zero and by `factor`, `number` adds nothing to `sum`.
pub open spec fn adds_nothing(m: Operations, factor: Single, number: Single, sum: Single) -> bool {
    (m.sum)(sum, (m.product)((m.product)(number, Single::of(ZERO)), factor)) == sum
}

/// Faithful operations add nothing where a finite number was multiplied by zero.
pub proof fn law_what_was_multiplied_by_zero_adds_nothing(
    m: Operations,
    factor: Single,
    number: Single,
    sum: Single,
)
    requires
        is_faithful(m),
        finite(factor),
        finite(number),
        finite(sum),
        is_signed(sum),
    ensures
        adds_nothing(m, factor, number, sum),
{
    let zero = Single::of(ZERO);
    let none = (m.product)(number, zero);
    assert(number.value() * 0 == 0) by (nonlinear_arith);
    law_products_stay_between(m, number, zero, zero, zero);
    let nothing = (m.product)(none, factor);
    assert(0 * factor.value() == 0) by (nonlinear_arith);
    law_products_stay_between(m, none, factor, zero, zero);
    law_sums_stay_between(m, sum, nothing, sum, sum);
    law_a_value_has_one_pattern((m.sum)(sum, nothing), sum);
}

/// Nothing of what follows step `t`, at which an episode ends, is added to what the step brought: neither
/// the value of the next step nor its advantage.
pub open spec fn ends(
    m: Operations,
    gamma: Single,
    lambda: Single,
    rewards: Seq<Single>,
    dones: Seq<bool>,
    values: Seq<Single>,
    next_value: Single,
    t: int,
) -> bool {
    &&& dones[t]
    &&& adds_nothing(m, gamma, value_after(values, next_value, t), rewards[t])
    &&& adds_nothing(
        m,
        (m.product)(gamma, lambda),
        if t + 1 < rewards.len() {
            m.advantage(gamma, lambda, rewards, dones, values, next_value, t + 1)
        } else {
            Single::of(ZERO)
        },
        (m.difference)(rewards[t], values[t]),
    )
}

/// What follows an ended episode is not counted in it: the advantage of the step that ends an episode is
/// its reward less its value, whatever follows.
pub proof fn law_nothing_leaks_over_the_end_of_an_episode(
    m: Operations,
    gamma: Single,
    lambda: Single,
    rewards: Seq<Single>,
    dones: Seq<bool>,
    values: Seq<Single>,
    next_value: Single,
    t: int,
)
    requires
        0 <= t < rewards.len(),
        ends(m, gamma, lambda, rewards, dones, values, next_value, t),
    ensures
        m.advantage(gamma, lambda, rewards, dones, values, next_value, t) == (m.difference)(
            rewards[t],
            values[t],
        ),
{
}

/// Two runs that agree up to step `t`, at which an episode ends in both, have the same advantages up to
/// there, whatever follows in either.
pub proof fn law_nothing_leaks_into_earlier_steps(
    m: Operations,
    gamma: Single,
    lambda: Single,
    rewards: Seq<Single>,
    dones: Seq<bool>,
    values: Seq<Single>,
    next_value: Single,
    other_rewards: Seq<Single>,
    other_dones: Seq<bool>,
    other_values: Seq<Single>,
    other_next_value: Single,
    t: int,
    s: int,
)
    requires
        0 <= s <= t,
        t < rewards.len() == values.len(),
        t < other_rewards.len() == other_values.len(),
        forall|i: int| 0 <= i <= t ==> #[trigger] rewards[i] == other_rewards[i],
        forall|i: int| 0 <= i <= t ==> #[trigger] dones[i] == other_dones[i],
        forall|i: int| 0 <= i <= t ==> #[trigger] values[i] == other_values[i],
        ends(m, gamma, lambda, rewards, dones, values, next_value, t),
        ends(
            m,
            gamma,
            lambda,
            other_rewards,
            other_dones,
            other_values,
            other_next_value,
            t,
        ),
    ensures
        m.advantage(gamma, lambda, rewards, dones, values, next_value, s) == m.advantage(
            gamma,
            lambda,
            other_rewards,
            other_dones,
            other_values,
            other_next_value,
            s,
        ),
    decreases t - s,
{
    if s == t {
        law_nothing_leaks_over_the_end_of_an_episode(
            m,
            gamma,
            lambda,
            rewards,
            dones,
            values,
            next_value,
            t,
        );
        law_nothing_leaks_over_the_end_of_an_episode(
            m,
            gamma,
            lambda,
            other_rewards,
            other_dones,
            other_values,
            other_next_value,
            t,
        );
        assert(rewards[t] == other_rewards[t]);
        assert(values[t] == other_values[t]);
    } else {
        law_nothing_leaks_into_earlier_steps(
            m,
            gamma,
            lambda,
            rewards,
            dones,
            values,
            next_value,
            other_rewards,
            other_dones,
            other_values,
            other_next_value,
            t,
            s + 1,
        );
        assert(rewards[s] == other_rewards[s]);
        assert(dones[s] == other_dones[s]);
        assert(values[s] == other_values[s]);
        assert(values[s + 1] == other_values[s + 1]);
    }
}

/// Where an episode of environment `b` ends at step `t`, by the settings.
pub open spec fn ends_in(
    m: Operations,
    config: ProximalPolicyOptimizationConfig,
    rewards: Seq<Vec<Single>>,
    dones: Seq<Vec<bool>>,
    values: Seq<Vec<Single>>,
    next_value: Seq<Single>,
    t: int,
    b: int,
) -> bool {
    ends(
        m,
        config.gamma,
        config.generalized_advantage_estimation_lambda,
        column(rewards, b),
        column(dones, b),
        column(values, b),
        next_value[b],
        t,
    )
}

/// Where two environments agree up to step `t`, at which an episode ends in both, their advantages and
/// their returns up to there are the same, whatever follows in either.
pub proof fn law_episodes_are_estimated_alone<A: Arithmetic>(
    arithmetic: A,
    m: Operations,
    config: ProximalPolicyOptimizationConfig,
    rewards: Seq<Vec<Single>>,
    dones: Seq<Vec<bool>>,
    values: Seq<Vec<Single>>,
    next_value: Seq<Single>,
    returned: Seq<Single>,
    advantages: Seq<Single>,
    b: int,
    other_rewards: Seq<Vec<Single>>,
    other_dones: Seq<Vec<bool>>,
    other_values: Seq<Vec<Single>>,
    other_next_value: Seq<Single>,
    other_returned: Seq<Single>,
    other_advantages: Seq<Single>,
    c: int,
    t: int,
    s: int,
)
    requires
        m.describes(arithmetic),
        are_estimates(
            arithmetic,
            config,
            rewards,
            dones,
            values,
            next_value,
            returned,
            advantages,
        ),
        are_estimates(
            arithmetic,
            config,
            other_rewards,
            other_dones,
            other_values,
            other_next_value,
            other_returned,
            other_advantages,
        ),
        0 <= b < next_value.len(),
        0 <= c < other_next_value.len(),
        0 <= s <= t,
        t < rewards.len() == values.len(),
        t < other_rewards.len() == other_values.len(),
        forall|i: int|
            0 <= i <= t ==> #[trigger] column(rewards, b)[i] == column(other_rewards, c)[i],
        forall|i: int| 0 <= i <= t ==> #[trigger] column(dones, b)[i] == column(other_dones, c)[i],
        forall|i: int|
            0 <= i <= t ==> #[trigger] column(values, b)[i] == column(other_values, c)[i],
        ends_in(m, config, rewards, dones, values, next_value, t, b),
        ends_in(
            m,
            config,
            other_rewards,
            other_dones,
            other_values,
            other_next_value,
            t,
            c,
        ),
    ensures
        advantages[sample(s, b, next_value.len())] == other_advantages[sample(
            s,
            c,
            other_next_value.len(),
        )],
        returned[sample(s, b, next_value.len())] == other_returned[sample(
            s,
            c,
            other_next_value.len(),
        )],
{
    law_nothing_leaks_into_earlier_steps(
        m,
        config.gamma,
        config.generalized_advantage_estimation_lambda,
        column(rewards, b),
        column(dones, b),
        column(values, b),
        next_value[b],
        column(other_rewards, c),
        column(other_dones, c),
        column(other_values, c),
        other_next_value[c],
        t,
        s,
    );
    assert(column(values, b)[s] == column(other_values, c)[s]);
}

/// The step that ends an episode has its reward less its value for its advantage, and for its return what
/// that and the value make, which is the reward where neither is rounded.
pub proof fn law_the_last_return_is_the_reward<A: Arithmetic>(
    arithmetic: A,
    m: Operations,
    config: ProximalPolicyOptimizationConfig,
    rewards: Seq<Vec<Single>>,
    dones: Seq<Vec<bool>>,
    values: Seq<Vec<Single>>,
    next_value: Seq<Single>,
    returned: Seq<Single>,
    advantages: Seq<Single>,
    t: int,
    b: int,
)
    requires
        m.describes(arithmetic),
        are_estimates(
            arithmetic,
            config,
            rewards,
            dones,
            values,
            next_value,
            returned,
            advantages,
        ),
        0 <= t < rewards.len() == values.len(),
        0 <= b < next_value.len(),
        ends_in(m, config, rewards, dones, values, next_value, t, b),
    ensures
        ({
            let (reward, value) = (rewards[t]@[b], values[t]@[b]);
            let advantage = (m.difference)(reward, value);
            &&& advantages[sample(t, b, next_value.len())] == advantage
            &&& returned[sample(t, b, next_value.len())] == (m.sum)(advantage, value)
            &&& is_faithful(m) && finite(reward) && finite(value) && finite(advantage)
                && advantage.value() == reward.value() - value.value() ==> returned[sample(
                t,
                b,
                next_value.len(),
            )].value() == reward.value()
        }),
{
    let (reward, value) = (rewards[t]@[b], values[t]@[b]);
    let advantage = (m.difference)(reward, value);
    law_nothing_leaks_over_the_end_of_an_episode(
        m,
        config.gamma,
        config.generalized_advantage_estimation_lambda,
        column(rewards, b),
        column(dones, b),
        column(values, b),
        next_value[b],
        t,
    );
    if is_faithful(m) && finite(reward) && finite(value) && finite(advantage) && advantage.value()
        == reward.value() - value.value() {
        law_sums_stay_between(m, advantage, value, reward, reward);
    }
}

/// Where an episode goes on, no step that leads to an advantage or to a return is rounded, given the value
/// and the advantage of the next step.
pub open spec fn estimates_exactly(
    m: Operations,
    config: ProximalPolicyOptimizationConfig,
    reward: Single,
    value: Single,
    next_value: Single,
    next_advantage: Single,
) -> bool {
    let one = Single::of(ONE);
    let (gamma, lambda) = (config.gamma, config.generalized_advantage_estimation_lambda);
    let ahead = (m.product)((m.product)(next_value, one), gamma);
    let reached = (m.sum)(reward, ahead);
    let delta = (m.difference)(reached, value);
    let rate = (m.product)(gamma, lambda);
    let rest = (m.product)((m.product)(next_advantage, one), rate);
    &&& product_is_exact(m, next_value, one)
    &&& product_is_exact(m, (m.product)(next_value, one), gamma)
    &&& sum_is_exact(m, reward, ahead)
    &&& difference_is_exact(m, reached, value)
    &&& product_is_exact(m, gamma, lambda)
    &&& product_is_exact(m, next_advantage, one)
    &&& product_is_exact(m, (m.product)(next_advantage, one), rate)
    &&& sum_is_exact(m, delta, rest)
    &&& sum_is_exact(m, (m.sum)(delta, rest), value)
}

/// The value of what follows step `t` of environment `b`: that of its next step, or that of what came after
/// the last.
pub open spec fn value_of_next(
    values: Seq<Vec<Single>>,
    next_value: Seq<Single>,
    t: int,
    b: int,
) -> Single {
    if t + 1 < values.len() {
        values[t + 1]@[b]
    } else {
        next_value[b]
    }
}

/// The advantage of what follows step `t` of environment `b`: that of its next step, and none after the
/// last.
pub open spec fn advantage_of_next(
    advantages: Seq<Single>,
    steps: nat,
    count: nat,
    t: int,
    b: int,
) -> Single {
    if t + 1 < steps {
        advantages[sample(t + 1, b, count)]
    } else {
        Single::of(ZERO)
    }
}

/// Where the episode goes on and nothing is rounded, the advantage of a step is its reward and, discounted
/// by gamma, the value of the next step, less its value, and, discounted by gamma and lambda, the advantage
/// of the next step. Its return is its advantage and its value.
pub proof fn law_advantages_follow_from_the_next_step<A: Arithmetic>(
    arithmetic: A,
    m: Operations,
    config: ProximalPolicyOptimizationConfig,
    rewards: Seq<Vec<Single>>,
    dones: Seq<Vec<bool>>,
    values: Seq<Vec<Single>>,
    next_value: Seq<Single>,
    returned: Seq<Single>,
    advantages: Seq<Single>,
    t: int,
    b: int,
)
    requires
        m.describes(arithmetic),
        are_estimates(
            arithmetic,
            config,
            rewards,
            dones,
            values,
            next_value,
            returned,
            advantages,
        ),
        0 <= t < rewards.len() == values.len(),
        dones.len() == rewards.len(),
        0 <= b < next_value.len(),
        !dones[t]@[b],
        estimates_exactly(
            m,
            config,
            rewards[t]@[b],
            values[t]@[b],
            value_of_next(values, next_value, t, b),
            advantage_of_next(advantages, rewards.len(), next_value.len(), t, b),
        ),
    ensures
        ({
            let (u, gamma) = (unit(), config.gamma.value());
            let lambda = config.generalized_advantage_estimation_lambda.value();
            let (reward, value) = (rewards[t]@[b].value(), values[t]@[b].value());
            let ahead = value_of_next(values, next_value, t, b).value();
            let next = advantage_of_next(advantages, rewards.len(), next_value.len(), t, b).value();
            let advantage = advantages[sample(t, b, next_value.len())].value();
            let total = returned[sample(t, b, next_value.len())].value();
            &&& (advantage + value - reward) * (u * u) == (gamma * ahead) * u + (gamma * lambda)
                * next
            &&& total == advantage + value
            &&& t + 1 == rewards.len() || lambda == 0 ==> (advantage + value - reward) * u == gamma
                * ahead
            &&& lambda == u ==> (total - reward) * u == gamma * (ahead + next)
        }),
{
    let one = Single::of(ONE);
    let (reward, value) = (rewards[t]@[b], values[t]@[b]);
    let next = value_of_next(values, next_value, t, b);
    let last = advantage_of_next(advantages, rewards.len(), next_value.len(), t, b);
    let (gamma, lambda) = (config.gamma, config.generalized_advantage_estimation_lambda);
    lemma_unit_is_positive();
    assert(column(rewards, b)[t] == reward);
    assert(column(values, b)[t] == value);
    assert(value_after(column(values, b), next_value[b], t) == next);
    let (u, g, l) = (unit(), gamma.value(), lambda.value());
    let (carried, kept) = ((m.product)(next, one), (m.product)(last, one));
    lemma_cancel(carried.value(), next.value(), u);
    lemma_cancel(kept.value(), last.value(), u);
    let ahead = (m.product)(carried, gamma);
    let delta = (m.difference)((m.sum)(reward, ahead), value);
    let rate = (m.product)(gamma, lambda);
    let rest = (m.product)(kept, rate);
    assert(advantages[sample(t, b, next_value.len())] == (m.sum)(delta, rest));
    let (n, a, x, y, r) = (next.value(), last.value(), ahead.value(), rest.value(), rate.value());
    assert(x * u == g * n) by (nonlinear_arith)
        requires
            x * u == n * g,
    ;
    assert(y * (u * u) == (g * l) * a) by {
        assert(y * (u * u) == (y * u) * u) by (nonlinear_arith);
        assert((a * r) * u == a * (r * u)) by (nonlinear_arith);
        assert(a * (g * l) == (g * l) * a) by (nonlinear_arith);
    }
    assert((x + y) * (u * u) == (x * u) * u + y * (u * u)) by (nonlinear_arith);
    if t + 1 == rewards.len() || l == 0 {
        assert(y == 0) by {
            assert((g * l) * a == 0) by (nonlinear_arith)
                requires
                    l == 0 || a == 0,
            ;
            assert(0 * (u * u) == 0) by (nonlinear_arith);
            assert(u * u > 0) by (nonlinear_arith)
                requires
                    u > 0,
            ;
            lemma_cancel(y, 0, u * u);
        }
    }
    if l == u {
        assert(y * u == g * a) by {
            assert((y * u) * u == y * (u * u)) by (nonlinear_arith);
            assert((g * u) * a == (g * a) * u) by (nonlinear_arith);
            lemma_cancel(y * u, g * a, u);
        }
        assert((x + y) * u == x * u + y * u) by (nonlinear_arith);
        assert(g * (n + a) == g * n + g * a) by (nonlinear_arith);
    }
}

/// One, multiplied by the unit as often as it is said.
pub open spec fn units(count: int) -> int
    decreases count,
{
    if count <= 0 {
        1
    } else {
        units(count - 1) * unit()
    }
}

/// The rewards from step `t` on and what comes after the last, each discounted by gamma once more than the
/// one before. All are values: what is discounted less often is multiplied by the unit instead.
pub open spec fn rewards_to_come(
    rewards: Seq<Single>,
    gamma: Single,
    next_value: Single,
    t: int,
) -> int
    decreases rewards.len() - t,
{
    if t >= rewards.len() {
        next_value.value()
    } else {
        rewards[t].value() * units(rewards.len() - t) + gamma.value() * rewards_to_come(
            rewards,
            gamma,
            next_value,
            t + 1,
        )
    }
}

/// With a lambda of one, where no episode ends any more and nothing is rounded, the return of a step is the
/// rewards to come together, each discounted by as many gammas as it lies ahead, and the value of what comes
/// after them.
pub proof fn law_returns_are_the_rewards_to_come<A: Arithmetic>(
    arithmetic: A,
    m: Operations,
    config: ProximalPolicyOptimizationConfig,
    rewards: Seq<Vec<Single>>,
    dones: Seq<Vec<bool>>,
    values: Seq<Vec<Single>>,
    next_value: Seq<Single>,
    returned: Seq<Single>,
    advantages: Seq<Single>,
    t: int,
    b: int,
)
    requires
        m.describes(arithmetic),
        are_estimates(
            arithmetic,
            config,
            rewards,
            dones,
            values,
            next_value,
            returned,
            advantages,
        ),
        0 <= t < rewards.len() == values.len(),
        dones.len() == rewards.len(),
        0 <= b < next_value.len(),
        config.generalized_advantage_estimation_lambda.value() == unit(),
        forall|s: int|
            t <= s < rewards.len() ==> !(#[trigger] dones[s])@[b] && estimates_exactly(
                m,
                config,
                rewards[s]@[b],
                values[s]@[b],
                value_of_next(values, next_value, s, b),
                advantage_of_next(advantages, rewards.len(), next_value.len(), s, b),
            ),
    ensures
        returned[sample(t, b, next_value.len())].value() * units(rewards.len() - t)
            == rewards_to_come(column(rewards, b), config.gamma, next_value[b], t),
    decreases rewards.len() - t,
{
    let count = next_value.len();
    let steps = rewards.len() as int;
    assert(!dones[t]@[b]);
    law_advantages_follow_from_the_next_step(
        arithmetic,
        m,
        config,
        rewards,
        dones,
        values,
        next_value,
        returned,
        advantages,
        t,
        b,
    );
    let column = column(rewards, b);
    let reward = rewards[t]@[b].value();
    assert(column[t] == rewards[t]@[b]);
    let (u, g) = (unit(), config.gamma.value());
    let total = returned[sample(t, b, count)].value();
    let power = units(steps - t - 1);
    assert(units(steps - t) == power * u);
    let next = if t + 1 < steps {
        law_returns_are_the_rewards_to_come(
            arithmetic,
            m,
            config,
            rewards,
            dones,
            values,
            next_value,
            returned,
            advantages,
            t + 1,
            b,
        );
        assert(!dones[t + 1]@[b]);
        law_advantages_follow_from_the_next_step(
            arithmetic,
            m,
            config,
            rewards,
            dones,
            values,
            next_value,
            returned,
            advantages,
            t + 1,
            b,
        );
        returned[sample(t + 1, b, count)].value()
    } else {
        next_value[b].value()
    };
    assert((total - reward) * u == g * next);
    let rest = rewards_to_come(column, config.gamma, next_value[b], t + 1);
    assert(next * power == rest) by {
        if t + 1 >= steps {
            assert(next * 1 == next);
        }
    }
    assert(total * (power * u) == reward * (power * u) + g * (next * power)) by {
        assert(total * (power * u) == (total * u) * power) by (nonlinear_arith);
        assert(reward * (power * u) == (reward * u) * power) by (nonlinear_arith);
        assert((total - reward) * u == total * u - reward * u) by (nonlinear_arith);
        let (a, c) = (total * u, reward * u);
        assert((c + g * next) * power == c * power + g * (next * power)) by (nonlinear_arith);
    }
}

} // verus!
