//! What is made of a rollout before it is learned from.

use crate::advantage::{are_estimates, compute_generalized_advantage_estimation};
use crate::arithmetic::Arithmetic;
use crate::decision::{Outlook, Policy};
use crate::joining::{join_rows, joined, lemma_joined_length, same_rows};
use crate::lanes::is_grid;
use crate::model::Normalizer;
use crate::ppo::ProximalPolicyOptimizationConfig;
use crate::rollout::Rollout;
use crate::single::Single;
use crate::statistics::are_normalized;
use crate::update::{lemma_joined_rows_have_width, Samples};
use vstd::prelude::*;

verus! {

/// The statistics after all observations of a rollout.
pub open spec fn have_seen<A: Arithmetic>(
    arithmetic: A,
    before: Normalizer,
    rollout: Rollout,
    after: Normalizer,
) -> bool {
    exists|rows: Seq<Vec<Single>>|
        {
            &&& #[trigger] same_rows(
                rows,
                joined(rollout.observations@, rollout.dones@.len() as int),
            )
            &&& before.updated(arithmetic, rows, after)
        }
}

/// What the networks make of the observations after the last step, normalized.
pub open spec fn looked_ahead<A: Arithmetic, P: Policy>(
    arithmetic: A,
    policy: P,
    normalizer: Normalizer,
    observation: Seq<Vec<Single>>,
    outlook: Outlook,
) -> bool {
    exists|normalized: Vec<Vec<Single>>|
        {
            &&& are_normalized(arithmetic, normalizer, observation, normalized@)
            &&& #[trigger] call_ensures(P::forward, (&policy, &normalized), outlook)
        }
}

/// The samples are those of a rollout, with the returns and the advantages that follow from it and from
/// the values of what came after it.
pub open spec fn are_estimated<A: Arithmetic>(
    arithmetic: A,
    config: ProximalPolicyOptimizationConfig,
    normalizer: Normalizer,
    rollout: Rollout,
    next_value: Seq<Single>,
    samples: Samples,
) -> bool {
    exists|returned: Seq<Single>, advantages: Seq<Single>|
        {
            &&& #[trigger] are_estimates(
                arithmetic,
                config,
                rollout.rewards@,
                rollout.dones@,
                rollout.values@,
                next_value,
                returned,
                advantages,
            )
            &&& samples.are_of(arithmetic, rollout, normalizer, returned, advantages)
        }
}

/// What is made of a rollout: the statistics take in its observations, the networks value what came after
/// it, and the samples follow. There are none where the networks give values for another number of
/// environments.
pub open spec fn prepared<A: Arithmetic, P: Policy>(
    arithmetic: A,
    policy: P,
    config: ProximalPolicyOptimizationConfig,
    before: Normalizer,
    after: Normalizer,
    rollout: Rollout,
    observation: Seq<Vec<Single>>,
    r: Option<Samples>,
) -> bool {
    &&& have_seen(arithmetic, before, rollout, after)
    &&& exists|outlook: Outlook|
        {
            &&& #[trigger] looked_ahead(arithmetic, policy, after, observation, outlook)
            &&& r is Some <==> outlook.value@.len() == config.environments_count
            &&& r matches Some(samples) ==> are_estimated(
                arithmetic,
                config,
                after,
                rollout,
                outlook.value@,
                samples,
            )
        }
}

/// Takes the observations of a rollout into the statistics, and turns the rollout into samples, given
/// what the agent sees after it. There are none where the networks give values for another number of
/// environments.
pub fn prepare<A: Arithmetic, P: Policy>(
    arithmetic: &A,
    policy: &P,
    config: &ProximalPolicyOptimizationConfig,
    normalizer: &mut Normalizer,
    rollout: &Rollout,
    observation: &Vec<Vec<Single>>,
) -> (r: Option<Samples>)
    requires
        old(normalizer).has(old(normalizer).mean@.len()),
        config.environments_count > 0,
        rollout.dones@.len() > 0,
        rollout.has_steps(rollout.dones@.len()),
        exists|torques: nat| #[trigger]
            rollout.has_rows(
                config.environments_count as nat,
                old(normalizer).mean@.len(),
                torques,
            ),
        is_grid(
            observation@,
            config.environments_count as nat,
            old(normalizer).mean@.len(),
        ),
    ensures
        prepared(
            *arithmetic,
            *policy,
            *config,
            *old(normalizer),
            *final(normalizer),
            *rollout,
            observation@,
            r,
        ),
        r matches Some(samples) ==> samples.has(
            rollout.dones@.len() * config.environments_count as nat,
        ),
{
    let ghost before = *normalizer;
    let ghost width = normalizer.mean@.len();
    let ghost count = config.environments_count as nat;
    let ghost steps = rollout.dones@.len() as int;
    let rows = join_rows(&rollout.observations);
    proof {
        assert forall|t: int| 0 <= t < steps implies (#[trigger] rollout.observations@[t])@.len()
            == count by {
            assert(is_grid(rollout.observations@[t]@, count, width));
        }
        lemma_joined_length(rollout.observations@, steps, count);
        assert(steps * count > 0) by (nonlinear_arith)
            requires
                steps > 0,
                count > 0,
        ;
        assert forall|i: int| 0 <= i < rows@.len() implies (#[trigger] rows@[i])@.len() == width by {
            lemma_joined_rows_have_width(rollout.observations@, steps, count, width, i);
        }
    }
    normalizer.update(arithmetic, &rows);
    proof {
        assert(same_rows(rows@, joined(rollout.observations@, steps)));
        assert(have_seen(*arithmetic, before, *rollout, *normalizer));
    }
    let normalized = normalizer.normalize(arithmetic, observation);
    let outlook = policy.forward(&normalized);
    proof {
        assert(call_ensures(P::forward, (policy, &normalized), outlook));
        assert(looked_ahead(*arithmetic, *policy, *normalizer, observation@, outlook));
    }
    if outlook.value.len() != config.environments_count {
        return None;
    }
    let (returned, advantages) = compute_generalized_advantage_estimation(
        &rollout.rewards,
        &rollout.dones,
        &rollout.values,
        &outlook.value,
        config,
        arithmetic,
    );
    let ghost totals = returned@;
    let samples = Samples::new(
        arithmetic,
        rollout,
        config.environments_count,
        &*normalizer,
        returned,
        &advantages,
    );
    proof {
        assert(are_estimates(
            *arithmetic,
            *config,
            rollout.rewards@,
            rollout.dones@,
            rollout.values@,
            outlook.value@,
            totals,
            advantages@,
        ));
        assert(samples.are_of(*arithmetic, *rollout, *normalizer, totals, advantages@));
        assert(are_estimated(
            *arithmetic,
            *config,
            *normalizer,
            *rollout,
            outlook.value@,
            samples,
        ));
    }
    Some(samples)
}

/// What is learned from is seen through the statistics that have taken in the whole rollout: by these the
/// observations of the samples are normalized, and by these what came after the rollout is, whose values the
/// last advantages and returns follow from.
pub proof fn law_samples_are_seen_through_the_new_statistics<A: Arithmetic, P: Policy>(
    arithmetic: A,
    policy: P,
    config: ProximalPolicyOptimizationConfig,
    before: Normalizer,
    after: Normalizer,
    rollout: Rollout,
    observation: Seq<Vec<Single>>,
    samples: Samples,
)
    requires
        prepared(
            arithmetic,
            policy,
            config,
            before,
            after,
            rollout,
            observation,
            Some(samples),
        ),
    ensures
        exists|rows: Seq<Vec<Single>>|
            {
                &&& #[trigger] same_rows(
                    rows,
                    joined(rollout.observations@, rollout.dones@.len() as int),
                )
                &&& before.updated(arithmetic, rows, after)
            },
        exists|
            normalized: Vec<Vec<Single>>,
            outlook: Outlook,
            returned: Seq<Single>,
            advantages: Seq<Single>,
        |
            {
                &&& #[trigger] call_ensures(P::forward, (&policy, &normalized), outlook)
                &&& are_normalized(arithmetic, after, observation, normalized@)
                &&& outlook.value@.len() == config.environments_count
                &&& #[trigger] are_estimates(
                    arithmetic,
                    config,
                    rollout.rewards@,
                    rollout.dones@,
                    rollout.values@,
                    outlook.value@,
                    returned,
                    advantages,
                )
                &&& samples.are_of(arithmetic, rollout, after, returned, advantages)
            },
{
    let outlook = choose|outlook: Outlook|
        {
            &&& #[trigger] looked_ahead(arithmetic, policy, after, observation, outlook)
            &&& outlook.value@.len() == config.environments_count
            &&& are_estimated(arithmetic, config, after, rollout, outlook.value@, samples)
        };
    assert(looked_ahead(arithmetic, policy, after, observation, outlook));
    assert(are_estimated(arithmetic, config, after, rollout, outlook.value@, samples));
}

/// There are no samples only where the networks give values for another number of environments.
pub proof fn law_only_misfits_prevent_samples<A: Arithmetic, P: Policy>(
    arithmetic: A,
    policy: P,
    config: ProximalPolicyOptimizationConfig,
    before: Normalizer,
    after: Normalizer,
    rollout: Rollout,
    observation: Seq<Vec<Single>>,
)
    requires
        prepared(arithmetic, policy, config, before, after, rollout, observation, None),
    ensures
        exists|normalized: Vec<Vec<Single>>, outlook: Outlook|
            {
                &&& #[trigger] call_ensures(P::forward, (&policy, &normalized), outlook)
                &&& are_normalized(arithmetic, after, observation, normalized@)
                &&& outlook.value@.len() != config.environments_count
            },
{
    let outlook = choose|outlook: Outlook|
        {
            &&& #[trigger] looked_ahead(arithmetic, policy, after, observation, outlook)
            &&& outlook.value@.len() != config.environments_count
        };
    assert(looked_ahead(arithmetic, policy, after, observation, outlook));
}

} // verus!
