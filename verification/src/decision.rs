//! What an agent decides to do.

use crate::arithmetic::{Arithmetic, Operations};
use crate::distribution::DiagonalGaussian;
use crate::fidelity::{lemma_whole_numbers, unit};
use crate::lanes::{has_grid, is_grid};
use crate::model::Normalizer;
use crate::numbers::{MINUS_5, PLUS_2};
use crate::single::{
    law_drawn_numbers_stay_or_go_to_the_nearer_end, lemma_key_orders, Single, FRACTIONS, SIGN_BIT,
};
use crate::statistics::are_normalized;
use vstd::arithmetic::power2::*;
use vstd::prelude::*;

verus! {

/// What an agent makes of what it sees.
pub struct Decision {
    pub action: Vec<Vec<Single>>,
    pub log_probability: Vec<Single>,
    pub value: Vec<Single>,
}

impl Decision {
    /// There is an action of `torques` numbers, a probability and a value for each of `count`
    /// environments.
    pub open spec fn fits(&self, count: nat, torques: nat) -> bool {
        &&& is_grid(self.action@, count, torques)
        &&& self.log_probability@.len() == count
        &&& self.value@.len() == count
    }
}

/// What the networks of an agent make of what it sees: the mean of the actions, and the value of the
/// observations.
pub struct Outlook {
    pub mean: Vec<Vec<Single>>,
    pub value: Vec<Single>,
}

impl Outlook {
    /// There is a mean of `torques` numbers and a value for each of `count` environments.
    pub open spec fn fits(&self, count: nat, torques: nat) -> bool {
        is_grid(self.mean@, count, torques) && self.value@.len() == count
    }

    /// Whether there is a mean of `torques` numbers and a value for each of `count` environments.
    pub fn is_for(&self, count: usize, torques: usize) -> (r: bool)
        ensures
            r == self.fits(count as nat, torques as nat),
    {
        has_grid(&self.mean, count, torques) && self.value.len() == count
    }
}

/// The networks of an agent. Nothing is assumed of them.
pub trait Policy {
    /// What the networks make of normalized observations.
    fn forward(&self, observation: &Vec<Vec<Single>>) -> Outlook;
}

/// How an agent behaves during a rollout: what it normalizes observations by, the logarithms of the
/// spread of its actions, and the noise that it adds to them, step by step.
pub struct Behavior {
    pub normalizer: Normalizer,
    pub log_standard_deviation: Vec<Single>,
    pub noise: Vec<Vec<Vec<Single>>>,
}

/// The logarithms of the spread, drawn between -5 and 2.
pub open spec fn restrained(log_std: Seq<Single>) -> Seq<Single> {
    Seq::new(
        log_std.len(),
        |j: int| log_std[j].drawn_between(Single::of(MINUS_5), Single::of(PLUS_2)),
    )
}

/// Draws the logarithms of the spread between -5 and 2.
fn restrain(log_std: &Vec<Single>) -> (r: Vec<Single>)
    ensures
        r@ == restrained(log_std@),
{
    let mut r: Vec<Single> = Vec::new();
    let mut j: usize = 0;
    while j < log_std.len()
        invariant
            j <= log_std@.len(),
            r@ =~= restrained(log_std@.take(j as int)),
        decreases log_std@.len() - j,
    {
        r.push(log_std[j].limit(Single { bits: MINUS_5 }, Single { bits: PLUS_2 }));
        j = j + 1;
    }
    assert(log_std@.take(j as int) =~= log_std@);
    r
}

/// The decision follows from what the networks make of the normalized observations: an action is drawn
/// around its mean, and its probability goes with it.
pub open spec fn is_drawn<A: Arithmetic>(
    arithmetic: A,
    behavior: Behavior,
    step: int,
    outlook: Outlook,
    decision: Decision,
) -> bool {
    exists|distribution: DiagonalGaussian|
        {
            &&& distribution.mean@ == outlook.mean@
            &&& distribution.log_std@ == restrained(behavior.log_standard_deviation@)
            &&& #[trigger] distribution.are_samples(
                arithmetic,
                behavior.noise@[step]@,
                decision.action@,
            )
            &&& distribution.are_log_probabilities(
                arithmetic,
                decision.action@,
                decision.log_probability@,
            )
            &&& decision.value == outlook.value
        }
}

/// What an agent decides in a step. There is nothing where the networks give means or values for another
/// number of environments or torques.
pub open spec fn decided<A: Arithmetic, P: Policy>(
    arithmetic: A,
    policy: P,
    behavior: Behavior,
    step: int,
    observation: Seq<Vec<Single>>,
    r: Option<Decision>,
) -> bool {
    exists|normalized: Vec<Vec<Single>>, outlook: Outlook|
        {
            &&& are_normalized(arithmetic, behavior.normalizer, observation, normalized@)
            &&& #[trigger] call_ensures(P::forward, (&policy, &normalized), outlook)
            &&& r is Some <==> outlook.fits(
                observation.len(),
                behavior.log_standard_deviation@.len(),
            )
            &&& r matches Some(decision) ==> is_drawn(arithmetic, behavior, step, outlook, decision)
        }
}

impl Behavior {
    /// The agent sees `seen` numbers and acts by `torques` numbers, and there is noise for `steps` steps
    /// of `count` environments.
    pub open spec fn fits(&self, steps: nat, count: nat, seen: nat, torques: nat) -> bool {
        &&& self.normalizer.has(seen)
        &&& self.log_standard_deviation@.len() == torques
        &&& self.noise@.len() == steps
        &&& forall|t: int|
            0 <= t < steps ==> is_grid((#[trigger] self.noise@[t])@, count, torques)
    }

    /// Decides what to do in a step, or gives nothing where the networks give means or values for
    /// another number of environments or torques.
    pub fn decide<A: Arithmetic, P: Policy>(
        &self,
        arithmetic: &A,
        policy: &P,
        step: usize,
        observation: &Vec<Vec<Single>>,
    ) -> (r: Option<Decision>)
        requires
            step < self.noise@.len(),
            self.fits(
                self.noise@.len(),
                observation@.len(),
                self.normalizer.mean@.len(),
                self.log_standard_deviation@.len(),
            ),
            is_grid(observation@, observation@.len(), self.normalizer.mean@.len()),
        ensures
            decided(*arithmetic, *policy, *self, step as int, observation@, r),
            r matches Some(decision) ==> decision.fits(
                observation@.len(),
                self.log_standard_deviation@.len(),
            ),
    {
        let normalized = self.normalizer.normalize(arithmetic, observation);
        let outlook = policy.forward(&normalized);
        assert(call_ensures(P::forward, (policy, &normalized), outlook));
        if !outlook.is_for(observation.len(), self.log_standard_deviation.len()) {
            return None;
        }
        let ghost seen = outlook;
        let distribution = DiagonalGaussian::new(
            outlook.mean,
            restrain(&self.log_standard_deviation),
        );
        assert(is_grid(
            self.noise@[step as int]@,
            observation@.len(),
            self.log_standard_deviation@.len(),
        ));
        let action = distribution.sample(arithmetic, &self.noise[step]);
        let log_probability = distribution.log_probability(arithmetic, &action);
        let decision = Decision { action, log_probability, value: outlook.value };
        assert(distribution.are_samples(
            *arithmetic,
            self.noise@[step as int]@,
            decision.action@,
        ));
        assert(is_drawn(*arithmetic, *self, step as int, seen, decision));
        Some(decision)
    }
}

/// How an agent decides: its networks see the observations normalized, and it acts by their means and, added
/// to each, the noise times the exponential of the logarithm of the spread, which counts as -5 where it is
/// less and as 2 where it is more. What it does is as likely as the distribution says, and the values are
/// those of the networks.
pub proof fn law_agents_act_around_their_means<A: Arithmetic, P: Policy>(
    arithmetic: A,
    m: Operations,
    policy: P,
    behavior: Behavior,
    step: int,
    observation: Seq<Vec<Single>>,
    decision: Decision,
)
    requires
        m.describes(arithmetic),
        decided(arithmetic, policy, behavior, step, observation, Some(decision)),
    ensures
        exists|normalized: Vec<Vec<Single>>, outlook: Outlook, spreads: Seq<Single>|
            {
                &&& #[trigger] call_ensures(P::forward, (&policy, &normalized), outlook)
                &&& are_normalized(arithmetic, behavior.normalizer, observation, normalized@)
                &&& #[trigger] are_restrained(behavior.log_standard_deviation@, spreads)
                &&& decision.value@ == outlook.value@
                &&& decision.action@.len() == outlook.mean@.len()
                &&& forall|b: int, j: int|
                    0 <= b < decision.action@.len() && 0 <= j < decision.action@[b]@.len()
                        ==> #[trigger] decision.action@[b]@[j] == (m.sum)(
                        outlook.mean@[b]@[j],
                        (m.product)(
                            behavior.noise@[step]@[b]@[j],
                            (m.exponential)(spreads[j]),
                        ),
                    )
                &&& forall|b: int|
                    0 <= b < decision.action@.len() ==> #[trigger] decision.log_probability@[b] == (
                    m.total)(
                        m.log_densities(outlook.mean@[b]@, spreads, decision.action@[b]@),
                    )
            },
{
    let (normalized, outlook) = choose|normalized: Vec<Vec<Single>>, outlook: Outlook|
        {
            &&& are_normalized(arithmetic, behavior.normalizer, observation, normalized@)
            &&& #[trigger] call_ensures(P::forward, (&policy, &normalized), outlook)
            &&& outlook.fits(observation.len(), behavior.log_standard_deviation@.len())
            &&& is_drawn(arithmetic, behavior, step, outlook, decision)
        };
    assert(is_drawn(arithmetic, behavior, step, outlook, decision));
    let distribution = choose|distribution: DiagonalGaussian|
        {
            &&& distribution.mean@ == outlook.mean@
            &&& distribution.log_std@ == restrained(behavior.log_standard_deviation@)
            &&& #[trigger] distribution.are_samples(
                arithmetic,
                behavior.noise@[step]@,
                decision.action@,
            )
            &&& distribution.are_log_probabilities(
                arithmetic,
                decision.action@,
                decision.log_probability@,
            )
            &&& decision.value == outlook.value
        };
    let spreads = distribution.log_std@;
    let log_std = behavior.log_standard_deviation@;
    lemma_key_orders(Single::of(MINUS_5), Single::of(PLUS_2));
    assert(are_restrained(log_std, spreads)) by {
        lemma_bounds();
        assert forall|j: int| 0 <= j < log_std.len() implies is_restrained(log_std[j], #[trigger] spreads[j]) by {
            law_drawn_numbers_stay_or_go_to_the_nearer_end(
                log_std[j],
                Single::of(MINUS_5),
                Single::of(PLUS_2),
            );
        }
    }
    assert forall|b: int, j: int|
        0 <= b < decision.action@.len() && 0 <= j < decision.action@[b]@.len() implies #[trigger] decision.action@[b]@[j]
        == (m.sum)(
        outlook.mean@[b]@[j],
        (m.product)(behavior.noise@[step]@[b]@[j], (m.exponential)(spreads[j])),
    ) by {
        assert(decision.action@[b]@ == m.sampled_row(
            distribution.mean@[b]@,
            spreads,
            behavior.noise@[step]@[b]@,
        ));
    }
    assert forall|b: int| 0 <= b < decision.action@.len() implies #[trigger] decision.log_probability@[b] == (
    m.total)(m.log_densities(outlook.mean@[b]@, spreads, decision.action@[b]@)) by {}
}

/// An agent decides nothing only where its networks give means or values for another number of environments,
/// or means of another number of torques.
pub proof fn law_only_misfits_prevent_a_decision<A: Arithmetic, P: Policy>(
    arithmetic: A,
    policy: P,
    behavior: Behavior,
    step: int,
    observation: Seq<Vec<Single>>,
)
    requires
        decided(arithmetic, policy, behavior, step, observation, None),
    ensures
        exists|normalized: Vec<Vec<Single>>, outlook: Outlook|
            {
                &&& #[trigger] call_ensures(P::forward, (&policy, &normalized), outlook)
                &&& are_normalized(arithmetic, behavior.normalizer, observation, normalized@)
                &&& {
                    ||| outlook.value@.len() != observation.len()
                    ||| outlook.mean@.len() != observation.len()
                    ||| exists|b: int|
                        0 <= b < observation.len() && (#[trigger] outlook.mean@[b])@.len()
                            != behavior.log_standard_deviation@.len()
                }
            },
{
}

/// A logarithm of a spread and what it counts as: no less than -5 and no more than 2, and itself in between.
pub open spec fn is_restrained(given: Single, counts: Single) -> bool {
    &&& !given.nan() && given.value() < -5 * unit() ==> counts.value() == -5 * unit()
    &&& !given.nan() && given.value() > 2 * unit() ==> counts.value() == 2 * unit()
    &&& -5 * unit() <= given.value() <= 2 * unit() ==> counts == given
}

/// Each of the spreads is restrained.
pub open spec fn are_restrained(given: Seq<Single>, count: Seq<Single>) -> bool {
    &&& count.len() == given.len()
    &&& forall|j: int| 0 <= j < given.len() ==> is_restrained(given[j], #[trigger] count[j])
}

proof fn lemma_bounds()
    ensures
        Single::of(MINUS_5).value() == -5 * unit(),
        Single::of(PLUS_2).value() == 2 * unit(),
{
    lemma_whole_numbers();
    lemma_pow2_unfold(128);
    lemma_pow2_unfold(127);
    let magnitude = (MINUS_5 - SIGN_BIT) as int;
    assert(magnitude / (FRACTIONS as int) == 129);
    assert(magnitude % (FRACTIONS as int) == 0x20_0000);
    assert(Single::of(MINUS_5).value() == -((0x20_0000 + FRACTIONS) * pow2(128)));
    assert(unit() == FRACTIONS * pow2(126));
    assert(pow2(128) == 4 * pow2(126));
}

} // verus!
