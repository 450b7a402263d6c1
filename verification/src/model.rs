//! The networks of the agent: how wide their layers are and in which order they are applied.

use crate::fidelity::unit;
use crate::lanes::{filled, repeated};
use crate::numbers::{is_nearest, law_patterns_are_nearest_to_their_names, ONE_TEN_THOUSANDTH};
use crate::single::{Single, ONE, ZERO};
use vstd::prelude::*;

verus! {

/// The width of the hidden layers.
pub const HIDDEN_DIMENSION: usize = 128;

/// A layer that maps each row of `input` numbers to a row of `output` numbers.
#[derive(Clone, Copy, Debug, PartialEq, Eq, Structural)]
pub struct Layer {
    pub input: usize,
    pub output: usize,
}

/// The arithmetic of a network of three layers. Nothing is assumed of it.
pub trait Layers {
    /// A row of numbers for each environment.
    type Batch;

    fn layer_1(&self, x: &Self::Batch) -> Self::Batch;

    fn layer_2(&self, x: &Self::Batch) -> Self::Batch;

    fn layer_3(&self, x: &Self::Batch) -> Self::Batch;

    /// The hyperbolic tangent of every number.
    fn tanh(&self, x: &Self::Batch) -> Self::Batch;
}

/// A network of three layers.
#[derive(Clone, Copy, Debug, PartialEq, Eq, Structural)]
pub struct MultiLayerPerceptron {
    pub layer_1: Layer,
    pub layer_2: Layer,
    pub layer_3: Layer,
}

/// The layers are applied one after the other, with the hyperbolic tangent after all but the last.
pub open spec fn forwarded<L: Layers>(layers: L, x: L::Batch, y: L::Batch) -> bool {
    exists|a: L::Batch, b: L::Batch, c: L::Batch, d: L::Batch|
        {
            &&& #[trigger] call_ensures(L::layer_1, (&layers, &x), a)
            &&& #[trigger] call_ensures(L::tanh, (&layers, &a), b)
            &&& #[trigger] call_ensures(L::layer_2, (&layers, &b), c)
            &&& #[trigger] call_ensures(L::tanh, (&layers, &c), d)
            &&& call_ensures(L::layer_3, (&layers, &d), y)
        }
}

impl MultiLayerPerceptron {
    /// The layers of a network from `input` numbers through two rows of `hidden` numbers to `output`
    /// numbers.
    pub fn new(input: usize, output: usize, hidden: usize) -> (r: Self)
        ensures
            r.layer_1 == (Layer { input, output: hidden }),
            r.layer_2 == (Layer { input: hidden, output: hidden }),
            r.layer_3 == (Layer { input: hidden, output }),
    {
        MultiLayerPerceptron {
            layer_1: Layer { input, output: hidden },
            layer_2: Layer { input: hidden, output: hidden },
            layer_3: Layer { input: hidden, output },
        }
    }

    /// Every layer takes what the one before it gives.
    pub open spec fn chains(self) -> bool {
        &&& self.layer_1.output == self.layer_2.input
        &&& self.layer_2.output == self.layer_3.input
    }

    /// Applies the network.
    pub fn forward<L: Layers>(layers: &L, x: &L::Batch) -> (y: L::Batch)
        ensures
            forwarded(*layers, *x, y),
    {
        let a = layers.layer_1(x);
        let b = layers.tanh(&a);
        let c = layers.layer_2(&b);
        let d = layers.tanh(&c);
        layers.layer_3(&d)
    }
}

/// The network that acts, the one that judges, and the spread of the actions.
pub struct ActorCritic {
    pub actor: MultiLayerPerceptron,
    pub critic: MultiLayerPerceptron,
    pub log_standard_deviation: Vec<Single>,
}

impl ActorCritic {
    /// The networks that act by `action_dimension` numbers on `input_dimension` numbers, with a spread
    /// of one in every direction.
    pub fn new(input_dimension: usize, action_dimension: usize) -> (r: Self)
        ensures
            r.fits(input_dimension, action_dimension),
            r.log_standard_deviation@ == repeated(Single::of(ZERO), action_dimension as nat),
            r.is_untrained(action_dimension as nat),
    {
        ActorCritic {
            actor: MultiLayerPerceptron::new(input_dimension, action_dimension, HIDDEN_DIMENSION),
            critic: MultiLayerPerceptron::new(input_dimension, 1, HIDDEN_DIMENSION),
            log_standard_deviation: filled(action_dimension, Single { bits: ZERO }),
        }
    }

    /// There is a spread in each direction of an action, and the logarithms of the spreads are zero.
    pub open spec fn is_untrained(&self, action_dimension: nat) -> bool {
        self.log_standard_deviation@ == repeated(Single::of(ZERO), action_dimension)
    }

    /// Both networks see `input_dimension` numbers; one gives `action_dimension` numbers, the other one.
    pub open spec fn fits(&self, input_dimension: usize, action_dimension: usize) -> bool {
        let hidden = Layer { input: HIDDEN_DIMENSION, output: HIDDEN_DIMENSION };
        &&& self.actor.layer_1 == (Layer { input: input_dimension, output: HIDDEN_DIMENSION })
        &&& self.actor.layer_2 == hidden
        &&& self.actor.layer_3 == (Layer { input: HIDDEN_DIMENSION, output: action_dimension })
        &&& self.critic.layer_1 == (Layer { input: input_dimension, output: HIDDEN_DIMENSION })
        &&& self.critic.layer_2 == hidden
        &&& self.critic.layer_3 == (Layer { input: HIDDEN_DIMENSION, output: 1 })
    }

    /// Applies both networks: the mean of the actions, the spread that goes with it, and the value of
    /// the observations.
    pub fn forward<L: Layers, S>(
        actor: &L,
        critic: &L,
        log_standard_deviation: S,
        x: &L::Batch,
    ) -> (r: (L::Batch, S, L::Batch))
        ensures
            forwarded(*actor, *x, r.0),
            r.1 == log_standard_deviation,
            forwarded(*critic, *x, r.2),
    {
        let mean = MultiLayerPerceptron::forward(actor, x);
        let value = MultiLayerPerceptron::forward(critic, x);
        (mean, log_standard_deviation, value)
    }
}

/// The statistics that observations are normalized by.
pub struct Normalizer {
    pub mean: Vec<Single>,
    pub var: Vec<Single>,
    pub count: Single,
}

impl Normalizer {
    /// No observation has been taken in: the means are zero, the variances one, and the count a ten
    /// thousandth.
    pub open spec fn is_new(&self, input_dimension: nat) -> bool {
        &&& self.mean@ == repeated(Single::of(ZERO), input_dimension)
        &&& self.var@ == repeated(Single::of(ONE), input_dimension)
        &&& self.count.bits == ONE_TEN_THOUSANDTH
    }

    /// The statistics before any observation, which change nothing and weigh next to nothing.
    pub fn new(input_dimension: usize) -> (r: Self)
        ensures
            r.mean@ == repeated(Single::of(ZERO), input_dimension as nat),
            r.var@ == repeated(Single::of(ONE), input_dimension as nat),
            r.count.bits == ONE_TEN_THOUSANDTH,
            r.is_new(input_dimension as nat),
    {
        Normalizer {
            mean: filled(input_dimension, Single { bits: ZERO }),
            var: filled(input_dimension, Single { bits: ONE }),
            count: Single { bits: ONE_TEN_THOUSANDTH },
        }
    }
}

/// The networks and the normalization of what they see.
pub struct Agent {
    pub model: ActorCritic,
    pub normalizer: Normalizer,
}

impl Agent {
    /// An agent that acts by `action_dimension` numbers on `input_dimension` numbers.
    pub fn new(input_dimension: usize, action_dimension: usize) -> (r: Self)
        ensures
            r.model.fits(input_dimension, action_dimension),
            r.model.log_standard_deviation@ == repeated(Single::of(ZERO), action_dimension as nat),
            r.normalizer.mean@ == repeated(Single::of(ZERO), input_dimension as nat),
            r.normalizer.var@ == repeated(Single::of(ONE), input_dimension as nat),
            r.normalizer.count.bits == ONE_TEN_THOUSANDTH,
            r.model.is_untrained(action_dimension as nat),
            r.normalizer.is_new(input_dimension as nat),
    {
        Agent {
            model: ActorCritic::new(input_dimension, action_dimension),
            normalizer: Normalizer::new(input_dimension),
        }
    }
}

/// Where each layer and the hyperbolic tangent are functions, a network composes them: the first layer, the
/// tangent, the second layer, the tangent, and the third layer, after which nothing bends the numbers.
pub proof fn law_networks_compose_their_layers<L: Layers>(
    layers: L,
    first: spec_fn(L::Batch) -> L::Batch,
    second: spec_fn(L::Batch) -> L::Batch,
    third: spec_fn(L::Batch) -> L::Batch,
    tangent: spec_fn(L::Batch) -> L::Batch,
    x: L::Batch,
    y: L::Batch,
)
    requires
        forall|a: L::Batch, b: L::Batch| #[trigger]
            call_ensures(L::layer_1, (&layers, &a), b) ==> b == first(a),
        forall|a: L::Batch, b: L::Batch| #[trigger]
            call_ensures(L::layer_2, (&layers, &a), b) ==> b == second(a),
        forall|a: L::Batch, b: L::Batch| #[trigger]
            call_ensures(L::layer_3, (&layers, &a), b) ==> b == third(a),
        forall|a: L::Batch, b: L::Batch| #[trigger]
            call_ensures(L::tanh, (&layers, &a), b) ==> b == tangent(a),
        forwarded(layers, x, y),
    ensures
        y == third(tangent(second(tangent(first(x))))),
{
}

/// New statistics have a mean of zero and a variance of one in every column, and count as a ten thousandth
/// of an observation. A new model has a spread of zero, by its logarithm, in every direction of an action.
pub proof fn law_new_agents_know_nothing(
    agent: Agent,
    input_dimension: nat,
    action_dimension: nat,
    j: int,
    k: int,
)
    requires
        agent.normalizer.is_new(input_dimension),
        agent.model.is_untrained(action_dimension),
        0 <= j < input_dimension,
        0 <= k < action_dimension,
    ensures
        agent.normalizer.mean@.len() == input_dimension,
        agent.normalizer.mean@[j].value() == 0,
        agent.normalizer.var@.len() == input_dimension,
        agent.normalizer.var@[j].value() == unit(),
        is_nearest(agent.normalizer.count.bits, 1, 10000),
        agent.model.log_standard_deviation@.len() == action_dimension,
        agent.model.log_standard_deviation@[k].value() == 0,
{
    law_patterns_are_nearest_to_their_names();
    assert(is_nearest(ONE_TEN_THOUSANDTH, 1, 10000));
}

/// In both networks of an agent every layer takes what the one before it gives, through two rows of 128
/// numbers. Both take what is seen; the one gives a number for each direction of an action, and the other a
/// single number.
pub proof fn law_layers_chain(model: ActorCritic, input_dimension: usize, action_dimension: usize)
    requires
        model.fits(input_dimension, action_dimension),
    ensures
        model.actor.chains(),
        model.critic.chains(),
        model.actor.layer_1.input == input_dimension,
        model.critic.layer_1.input == input_dimension,
        model.actor.layer_3.output == action_dimension,
        model.critic.layer_3.output == 1,
        model.actor.layer_1.output == 128 && model.actor.layer_2.output == 128,
        model.critic.layer_1.output == 128 && model.critic.layer_2.output == 128,
{
}

} // verus!
