//! The environment that the walker is trained in: when an episode ends and what it is worth.

use crate::arithmetic::{
    difference, exponential, product, quotient, square, squares, sum, tangents, total, Arithmetic,
    Operations,
};
use crate::fidelity::{
    difference_is_exact, exponentiates_in_order, finite, is_faithful, law_products_stay_between,
    lemma_cancel, lemma_finite_between, lemma_squared_total,
    lemma_whole_numbers, product_is_exact, quotient_is_exact, square_is_exact, squared_total, sum_is_exact,
    total_is_exact, unit,
};
use crate::lanes::{is_grid, pick, picked};
use crate::math::{is_odd, lemma_farther_differences, lemma_halves};
use crate::motion::{draws_of, has_draws, origin, root_start, started, PhysicsState, Point};
use crate::numbers::{
    MINUS_0_1, MINUS_0_5, MINUS_4, ONE_SIXTIETH, PLUS_10, PLUS_1_3, PLUS_1_5, PLUS_1_6, PLUS_9_8,
};
use crate::observation::shows;
use crate::physics::WalkerConfig;
use crate::single::{lemma_key_orders, Single, ONE, ZERO};
use crate::step::walked;
use crate::traversal::lemma_visits_count;
use crate::walker::{has_room, Walker};
use vstd::prelude::*;

verus! {

/// A state of several environments, of which some can be exchanged for those of another state.
pub trait EnvironmentState: Sized {
    /// The state is one of `count` environments.
    spec fn has_environments(&self, count: nat) -> bool;

    /// Environment by environment, the state is that of `other` where the mask is set and that of
    /// `own` elsewhere.
    spec fn exchanged(own: Self, mask: Seq<bool>, other: Self, r: Self) -> bool;

    /// Takes the environments of `other` where the mask is set.
    fn mask_where(self, mask: &Vec<bool>, other: Self) -> (r: Self)
        requires
            self.has_environments(mask@.len()),
            other.has_environments(mask@.len()),
        ensures
            Self::exchanged(self, mask@, other, r),
            r.has_environments(mask@.len()),
    ;
}

impl EnvironmentState for PhysicsState {
    /// Every part of the state has an entry for each of `count` walkers.
    open spec fn has_environments(&self, count: nat) -> bool {
        &&& self.positions@.len() == count
        &&& self.velocities@.len() == count
        &&& self.time@.len() == count
        &&& self.target_velocity@.len() == count
    }

    open spec fn exchanged(own: Self, mask: Seq<bool>, other: Self, r: Self) -> bool {
        &&& r.positions@ == picked(mask, own.positions@, other.positions@)
        &&& r.velocities@ == picked(mask, own.velocities@, other.velocities@)
        &&& r.time@ == picked(mask, own.time@, other.time@)
        &&& r.target_velocity@ == picked(mask, own.target_velocity@, other.target_velocity@)
    }

    fn mask_where(self, mask: &Vec<bool>, other: Self) -> (r: Self) {
        PhysicsState {
            positions: pick(mask, self.positions, other.positions),
            velocities: pick(mask, self.velocities, other.velocities),
            time: pick(mask, self.time, other.time),
            target_velocity: pick(mask, self.target_velocity, other.target_velocity),
        }
    }
}

/// The walker and the time after which an episode is over.
pub struct TrainingEnv {
    pub walker: Walker,
    pub max_time: Single,
}

/// What one step of the environments led to.
pub struct TrainingStep {
    pub observation: Vec<Vec<Single>>,
    pub state: PhysicsState,
    pub reward: Vec<Single>,
    pub done: Vec<bool>,
    pub is_fallen: Vec<bool>,
}

/// A source of random numbers. Nothing is assumed of it, not even that it keeps to the range.
pub trait Chance {
    /// A number between `low` and `high`.
    fn draw(&self, low: Single, high: Single) -> Single;
}

/// Each number was drawn between `low` and `high`.
pub open spec fn were_drawn<C: Chance>(
    chance: C,
    low: Single,
    high: Single,
    draws: Seq<Single>,
) -> bool {
    forall|i: int|
        0 <= i < draws.len() ==> call_ensures(
            C::draw,
            (&chance, low, high),
            #[trigger] draws[i],
        )
}

/// Each number lies between `low` and `high`.
pub open spec fn lie_between(low: Single, high: Single, draws: Seq<Single>) -> bool {
    forall|i: int|
        0 <= i < draws.len() ==> low.up_to(#[trigger] draws[i]) && draws[i].up_to(high)
}

/// Draws `count` numbers, and says whether they lie between `low` and `high`.
fn drawn<C: Chance>(chance: &C, low: Single, high: Single, count: usize) -> (r: (Vec<Single>, bool))
    ensures
        r.0@.len() == count,
        were_drawn(*chance, low, high, r.0@),
        r.1 == lie_between(low, high, r.0@),
{
    let mut draws: Vec<Single> = Vec::new();
    let mut inside = true;
    let mut i: usize = 0;
    while i < count
        invariant
            i <= count,
            draws@.len() == i,
            were_drawn(*chance, low, high, draws@),
            inside == lie_between(low, high, draws@),
        decreases count - i,
    {
        let ghost before = draws@;
        let draw = chance.draw(low, high);
        let fits = low.at_most(draw) && draw.at_most(high);
        assert(call_ensures(C::draw, (chance, low, high), draw));
        draws.push(draw);
        proof {
            assert forall|k: int| 0 <= k < draws@.len() implies call_ensures(
                C::draw,
                (chance, low, high),
                #[trigger] draws@[k],
            ) by {
                if k < before.len() {
                    assert(draws@[k] == before[k]);
                }
            }
            assert(lie_between(low, high, draws@) ==> lie_between(low, high, before)) by {
                assert forall|k: int| 0 <= k < before.len() && lie_between(low, high, draws@) implies low.up_to(
                    #[trigger] before[k],
                ) && before[k].up_to(high) by {
                    assert(draws@[k] == before[k]);
                }
            }
            assert(draws@[i as int] == draw);
        }
        inside = inside && fits;
        i = i + 1;
    }
    (draws, inside)
}

/// The draws for the start of a batch of walkers: between zero and one for each edge, and between -0.5
/// and 1.5 for the velocities to walk at.
pub struct Draws {
    pub turns: Vec<Vec<Single>>,
    pub target_velocity: Vec<Single>,
}

impl Draws {
    /// There are draws for each of `count` walkers of `edges` edges.
    pub open spec fn has(&self, edges: nat, count: nat) -> bool {
        has_draws(self.turns@, edges, count) && self.target_velocity@.len() == count
    }

    /// The draws came from `chance`.
    pub open spec fn came_from<C: Chance>(&self, chance: C) -> bool {
        &&& forall|i: int|
            0 <= i < self.turns@.len() ==> were_drawn(
                chance,
                Single::of(ZERO),
                Single::of(ONE),
                (#[trigger] self.turns@[i])@,
            )
        &&& were_drawn(
            chance,
            Single::of(MINUS_0_5),
            Single::of(PLUS_1_5),
            self.target_velocity@,
        )
    }

    /// Every draw lies in its range.
    pub open spec fn in_range(&self) -> bool {
        &&& forall|i: int|
            0 <= i < self.turns@.len() ==> lie_between(
                Single::of(ZERO),
                Single::of(ONE),
                (#[trigger] self.turns@[i])@,
            )
        &&& lie_between(Single::of(MINUS_0_5), Single::of(PLUS_1_5), self.target_velocity@)
    }

    /// Draws for `count` walkers of `edges` edges, and says whether every draw lies in its range.
    fn new<C: Chance>(chance: &C, edges: usize, count: usize) -> (r: (Self, bool))
        ensures
            r.0.has(edges as nat, count as nat),
            r.0.came_from(*chance),
            r.1 == r.0.in_range(),
    {
        let (zero, one) = (Single { bits: ZERO }, Single { bits: ONE });
        let mut turns: Vec<Vec<Single>> = Vec::new();
        let mut inside = true;
        let mut i: usize = 0;
        while i < edges
            invariant
                zero == Single::of(ZERO),
                one == Single::of(ONE),
                i <= edges,
                has_draws(turns@, i as nat, count as nat),
                forall|k: int| 0 <= k < i ==> were_drawn(*chance, zero, one, (#[trigger] turns@[k])@),
                inside == (forall|k: int| 0 <= k < i ==> lie_between(zero, one, (#[trigger] turns@[k])@)),
            decreases edges - i,
        {
            let ghost before = turns@;
            let (row, fits) = drawn(chance, zero, one, count);
            let ghost last = row@;
            turns.push(row);
            proof {
                assert(turns@[i as int]@ == last);
                if inside && fits {
                    assert forall|k: int| 0 <= k < i + 1 implies lie_between(
                        zero,
                        one,
                        (#[trigger] turns@[k])@,
                    ) by {
                        if k < i {
                            assert(turns@[k] == before[k]);
                        }
                    }
                } else if fits {
                    let k = choose|k: int| 0 <= k < i && !lie_between(zero, one, (#[trigger] before[k])@);
                    assert(turns@[k] == before[k]);
                }
            }
            inside = inside && fits;
            i = i + 1;
        }
        let (target_velocity, fits) = drawn(
            chance,
            Single { bits: MINUS_0_5 },
            Single { bits: PLUS_1_5 },
            count,
        );
        (Draws { turns, target_velocity }, inside && fits)
    }
}

/// Walker `b` starts afresh: its head is in place, it is at rest, its time is zero, and the velocity
/// that it is to walk at lies between -0.5 and 1.5.
pub open spec fn is_fresh(state: PhysicsState, b: int) -> bool {
    &&& state.positions@[b]@[0] == root_start()
    &&& forall|k: int|
        0 <= k < state.velocities@[b]@.len() ==> #[trigger] state.velocities@[b]@[k] == origin()
    &&& state.time@[b] == Single::of(ZERO)
    &&& Single::of(MINUS_0_5).up_to(state.target_velocity@[b])
    &&& state.target_velocity@[b].up_to(Single::of(PLUS_1_5))
}

/// A fresh start of the environments by the given draws, and what is seen of it.
pub open spec fn begun<A: Arithmetic>(
    env: TrainingEnv,
    arithmetic: A,
    count: nat,
    draws: Draws,
    observation: Seq<Vec<Single>>,
    state: PhysicsState,
) -> bool {
    &&& state.holds(count, env.walker.n_particles as nat)
    &&& forall|b: int| #![trigger state.positions@[b]] 0 <= b < count ==> is_fresh(state, b)
    &&& forall|b: int| 0 <= b < count ==> !env.falls((#[trigger] state.positions@[b])@)
    &&& started(env.walker, arithmetic, draws.turns@, state)
    &&& state.target_velocity == draws.target_velocity
    &&& shows(env.walker, arithmetic, state, observation)
}

/// A fresh start of the environments by draws from `chance`. There is none where a draw lies outside
/// its range.
pub open spec fn was_reset<A: Arithmetic, C: Chance>(
    env: TrainingEnv,
    arithmetic: A,
    chance: C,
    count: nat,
    r: Option<(Vec<Vec<Single>>, PhysicsState)>,
) -> bool {
    exists|draws: Draws|
        {
            &&& #[trigger] draws.has(env.walker.edges@.len(), count)
            &&& draws.came_from(chance)
            &&& r is Some <==> draws.in_range()
            &&& r matches Some(fresh) ==> begun(env, arithmetic, count, draws, fresh.0@, fresh.1)
        }
}

/// The torques of an action, drawn between minus one and one.
pub open spec fn are_squashed<A: Arithmetic>(
    arithmetic: A,
    action: Seq<Vec<Single>>,
    squashed: Seq<Vec<Single>>,
) -> bool {
    &&& squashed.len() == action.len()
    &&& forall|b: int| 0 <= b < action.len() ==> (#[trigger] squashed[b])@.len() == action[b]@.len()
    &&& forall|m: Operations, b: int| #[trigger]
        m.describes(arithmetic) && 0 <= b < action.len() ==> (#[trigger] squashed[b])@ == m.tangents(
            action[b]@,
        )
}

impl Operations {
    /// How fast the center of mass of a walker moved in a step.
    pub open spec fn speed(self, walker: Walker, before: Seq<Point>, after: Seq<Point>) -> Single {
        (self.quotient)(
            (self.difference)(
                self.center_of_mass(walker, after).x,
                self.center_of_mass(walker, before).x,
            ),
            walker.config.time_step,
        )
    }

    /// What a step is worth: more, the closer the speed is to the one to walk at, and less, the greater
    /// the torques.
    pub open spec fn reward(
        self,
        speed: Single,
        target_velocity: Single,
        torques: Seq<Single>,
    ) -> Single {
        let miss = (self.square)((self.difference)(speed, target_velocity));
        let effort = (self.total)(self.squares(torques));
        (self.sum)(
            (self.exponential)((self.product)(miss, Single::of(MINUS_4))),
            (self.product)(effort, Single::of(MINUS_0_1)),
        )
    }
}

/// A step of the environments: the walkers are moved by the squashed action, and what it led to is
/// judged.
pub open spec fn stepped<A: Arithmetic>(
    env: TrainingEnv,
    arithmetic: A,
    state: PhysicsState,
    action: Seq<Vec<Single>>,
    step: TrainingStep,
) -> bool {
    exists|squashed: Seq<Vec<Single>>|
        {
            &&& #[trigger] are_squashed(arithmetic, action, squashed)
            &&& walked(env.walker, arithmetic, state, squashed, step.state)
            &&& env.judged(arithmetic, state, squashed, step)
        }
}

impl TrainingEnv {
    /// The walker is the default one.
    pub open spec fn wf(&self) -> bool {
        &&& self.walker.wf()
        &&& self.walker.config.morphology.is_humanoid()
        &&& self.walker.n_particles == 11
        &&& self.walker.joint_pairs@.len() == 9
        &&& self.walker.config.gravity.bits == PLUS_9_8
        &&& self.walker.config.time_step.bits == ONE_SIXTIETH
        &&& self.walker.config.friction.bits == ONE
        &&& self.walker.config.fall_y.bits == PLUS_1_3
        &&& self.walker.config.constraint_iterations == 4
    }

    /// A walker has fallen when its root is no higher than the height of a fall.
    pub open spec fn falls(&self, particles: Seq<Point>) -> bool {
        particles[0].y.up_to(self.walker.config.fall_y)
    }

    /// The time of an episode is up.
    pub open spec fn is_late(&self, time: Single) -> bool {
        self.max_time.up_to(time)
    }

    /// An episode is over when the walker has fallen, when its time is up, or when its center of mass
    /// has reached the goal.
    pub open spec fn ends(&self, particles: Seq<Point>, time: Single, com_x: Single) -> bool {
        self.falls(particles) || self.is_late(time) || Single::of(PLUS_10).up_to(com_x)
    }

    /// What a step is judged to be: what the agent sees of the state that it led to, the reward without
    /// what is not a number, and whether the walkers have fallen and the episodes are over.
    pub open spec fn judged<A: Arithmetic>(
        &self,
        arithmetic: A,
        state: PhysicsState,
        squashed: Seq<Vec<Single>>,
        step: TrainingStep,
    ) -> bool {
        let (count, next) = (state.positions@.len(), step.state);
        &&& shows(self.walker, arithmetic, next, step.observation@)
        &&& step.reward@.len() == count
        &&& step.done@.len() == count
        &&& step.is_fallen@ == Seq::new(count, |b: int| self.falls(next.positions@[b]@))
        &&& forall|b: int| 0 <= b < count ==> !(#[trigger] step.reward@[b]).nan()
        &&& forall|b: int|
            0 <= b < count && (self.falls(next.positions@[b]@) || self.is_late(next.time@[b]))
                ==> #[trigger] step.done@[b]
        &&& forall|m: Operations, b: int| #[trigger]
            m.describes(arithmetic) && 0 <= b < count ==> #[trigger] step.reward@[b] == m.reward(
                m.speed(self.walker, state.positions@[b]@, next.positions@[b]@),
                state.target_velocity@[b],
                squashed[b]@,
            ).cleaned()
        &&& forall|m: Operations, b: int| #[trigger]
            m.describes(arithmetic) && 0 <= b < count ==> #[trigger] step.done@[b] == self.ends(
                next.positions@[b]@,
                next.time@[b],
                m.center_of_mass(self.walker, next.positions@[b]@).x,
            )
    }

    /// The environment of the default walker, with episodes of at most `max_time`.
    pub fn new<A: Arithmetic>(max_time: Single, arithmetic: &A) -> (r: Self)
        ensures
            r.wf(),
            r.max_time == max_time,
            forall|m: Operations| #[trigger] m.describes(*arithmetic) ==> r.walker.weighs(m),
    {
        let config = WalkerConfig::default();
        proof {
            lemma_visits_count(config.morphology.root, 0, None, 0);
            assert(has_room(10)) by (nonlinear_arith);
        }
        let walker = Walker::new(config, arithmetic);
        TrainingEnv { walker, max_time }
    }

    /// The number of torques that drive the walker.
    pub fn action_dim(&self) -> (r: usize)
        ensures
            r == self.walker.joint_pairs@.len(),
            self.wf() ==> r == 9,
    {
        self.walker.action_dim()
    }

    /// Starts `environments_count` environments afresh by the given draws, which lie in their ranges.
    pub fn begin<A: Arithmetic>(
        &self,
        environments_count: usize,
        arithmetic: &A,
        draws: Draws,
    ) -> (r: (Vec<Vec<Single>>, PhysicsState))
        requires
            self.wf(),
            draws.has(self.walker.edges@.len(), environments_count as nat),
            draws.in_range(),
        ensures
            begun(*self, *arithmetic, environments_count as nat, draws, r.0@, r.1),
    {
        let placed = self.walker.initial_state(arithmetic, environments_count, &draws.turns);
        let state = PhysicsState {
            positions: placed.positions,
            velocities: placed.velocities,
            time: placed.time,
            target_velocity: draws.target_velocity,
        };
        let observation = self.walker.get_observation(arithmetic, &state);
        proof {
            assert forall|b: int| #![trigger state.positions@[b]] 0 <= b < environments_count implies is_fresh(
                state,
                b,
            ) by {
                assert(placed.positions@[b]@[0] == root_start());
                assert(placed.velocities@[b]@.len() == self.walker.n_particles);
                assert(lie_between(
                    Single::of(MINUS_0_5),
                    Single::of(PLUS_1_5),
                    draws.target_velocity@,
                ));
                assert(draws.target_velocity@[b] == state.target_velocity@[b]);
            }
            assert forall|b: int| 0 <= b < environments_count implies !self.falls(
                (#[trigger] state.positions@[b])@,
            ) by {
                assert(placed.positions@[b]@[0] == root_start());
                law_fresh_walkers_stand(*self, state, b);
            }
        }
        (observation, state)
    }

    /// Starts `environments_count` environments afresh, or gives nothing where a draw lies outside its
    /// range.
    pub fn reset<A: Arithmetic, C: Chance>(
        &self,
        environments_count: usize,
        arithmetic: &A,
        chance: &C,
    ) -> (r: Option<(Vec<Vec<Single>>, PhysicsState)>)
        requires
            self.wf(),
        ensures
            was_reset(*self, *arithmetic, *chance, environments_count as nat, r),
    {
        let (draws, inside) = Draws::new(chance, self.walker.edges.len(), environments_count);
        assert(draws.has(self.walker.edges@.len(), environments_count as nat));
        if inside {
            Some(self.begin(environments_count, arithmetic, draws))
        } else {
            None
        }
    }

    /// What the step of one walker is worth.
    fn rewarded<A: Arithmetic>(
        &self,
        arithmetic: &A,
        before_x: Single,
        after_x: Single,
        target_velocity: Single,
        torques: &Vec<Single>,
    ) -> (r: Single)
        ensures
            forall|m: Operations| #[trigger]
                m.describes(*arithmetic) ==> r == m.reward(
                    (m.quotient)((m.difference)(after_x, before_x), self.walker.config.time_step),
                    target_velocity,
                    torques@,
                ),
    {
        let distance = difference(arithmetic, after_x, before_x);
        let speed = quotient(arithmetic, distance, self.walker.config.time_step);
        let miss = square(arithmetic, difference(arithmetic, speed, target_velocity));
        let close = exponential(arithmetic, product(arithmetic, miss, Single { bits: MINUS_4 }));
        let effort = total(arithmetic, &squares(arithmetic, torques));
        let penalty = product(arithmetic, effort, Single { bits: MINUS_0_1 });
        sum(arithmetic, close, penalty)
    }

    /// Takes a step in every environment.
    pub fn step<A: Arithmetic>(
        &self,
        arithmetic: &A,
        state: PhysicsState,
        action: &Vec<Vec<Single>>,
    ) -> (r: TrainingStep)
        requires
            self.wf(),
            state.holds(state.positions@.len(), self.walker.n_particles as nat),
            is_grid(action@, state.positions@.len(), self.walker.joint_pairs@.len()),
        ensures
            stepped(*self, *arithmetic, state, action@, r),
    {
        let count = state.positions.len();
        let squashed = squash(arithmetic, action);
        let before = self.walker.center_of_mass(arithmetic, &state.positions);
        let ghost start = state;
        proof {
            assert forall|b: int| 0 <= b < count implies (#[trigger] squashed@[b])@.len()
                == self.walker.joint_pairs@.len() by {
                assert(action@[b]@.len() == self.walker.joint_pairs@.len());
            }
        }
        let next = self.walker.step(arithmetic, state, &squashed);
        let after = self.walker.center_of_mass(arithmetic, &next.positions);
        let observation = self.walker.get_observation(arithmetic, &next);
        let mut reward: Vec<Single> = Vec::new();
        let mut is_fallen: Vec<bool> = Vec::new();
        let mut done: Vec<bool> = Vec::new();
        let mut b: usize = 0;
        while b < count
            invariant
                self.wf(),
                count == start.positions@.len(),
                next.holds(count as nat, self.walker.n_particles as nat),
                next.target_velocity == start.target_velocity,
                squashed@.len() == count,
                before@.len() == count,
                after@.len() == count,
                forall|m: Operations, i: int| #[trigger]
                    m.describes(*arithmetic) && 0 <= i < count ==> #[trigger] before@[i]
                        == m.center_of_mass(self.walker, start.positions@[i]@),
                forall|m: Operations, i: int| #[trigger]
                    m.describes(*arithmetic) && 0 <= i < count ==> #[trigger] after@[i]
                        == m.center_of_mass(self.walker, next.positions@[i]@),
                b <= count,
                reward@.len() == b,
                done@.len() == b,
                is_fallen@ =~= Seq::new(b as nat, |b: int| self.falls(next.positions@[b]@)),
                forall|i: int| 0 <= i < b ==> !(#[trigger] reward@[i]).nan(),
                forall|i: int|
                    0 <= i < b && (self.falls(next.positions@[i]@) || self.is_late(next.time@[i]))
                        ==> #[trigger] done@[i],
                forall|m: Operations, i: int| #[trigger]
                    m.describes(*arithmetic) && 0 <= i < b ==> #[trigger] reward@[i] == m.reward(
                        m.speed(self.walker, start.positions@[i]@, next.positions@[i]@),
                        start.target_velocity@[i],
                        squashed@[i]@,
                    ).cleaned(),
                forall|m: Operations, i: int| #[trigger]
                    m.describes(*arithmetic) && 0 <= i < b ==> #[trigger] done@[i] == self.ends(
                        next.positions@[i]@,
                        next.time@[i],
                        m.center_of_mass(self.walker, next.positions@[i]@).x,
                    ),
            decreases count - b,
        {
            assert(next.positions@[b as int]@.len() == self.walker.n_particles);
            let worth = self.rewarded(
                arithmetic,
                before[b].x,
                after[b].x,
                next.target_velocity[b],
                &squashed[b],
            );
            let fallen = next.positions[b][0].y.at_most(self.walker.config.fall_y);
            let late = self.max_time.at_most(next.time[b]);
            let arrived = Single { bits: PLUS_10 }.at_most(after[b].x);
            reward.push(worth.sanitize());
            is_fallen.push(fallen);
            done.push(fallen || late || arrived);
            b = b + 1;
        }
        let r = TrainingStep { observation, state: next, reward, done, is_fallen };
        proof {
            assert(are_squashed(*arithmetic, action@, squashed@));
            assert(self.judged(*arithmetic, start, squashed@, r));
        }
        r
    }
}

/// Draws the torques of an action between minus one and one.
fn squash<A: Arithmetic>(arithmetic: &A, action: &Vec<Vec<Single>>) -> (r: Vec<Vec<Single>>)
    ensures
        are_squashed(*arithmetic, action@, r@),
{
    let mut r: Vec<Vec<Single>> = Vec::new();
    let mut b: usize = 0;
    while b < action.len()
        invariant
            b <= action@.len(),
            are_squashed(*arithmetic, action@.take(b as int), r@),
        decreases action@.len() - b,
    {
        r.push(tangents(arithmetic, &action[b]));
        b = b + 1;
    }
    assert(action@.take(b as int) =~= action@);
    r
}

/// An episode is over where the head is no higher than the height of a fall, where the time has come to the
/// greatest, or where the center of mass is ten or more ahead, and nowhere else; and a walker has fallen
/// where its head is no higher than the height of a fall.
pub proof fn law_an_episode_ends_by_a_fall_by_time_or_ten_ahead<A: Arithmetic>(
    env: TrainingEnv,
    arithmetic: A,
    m: Operations,
    state: PhysicsState,
    action: Seq<Vec<Single>>,
    step: TrainingStep,
    b: int,
)
    requires
        m.describes(arithmetic),
        stepped(env, arithmetic, state, action, step),
        0 <= b < state.positions@.len(),
    ensures
        ({
            let head = step.state.positions@[b]@[0].y;
            let low = env.walker.config.fall_y;
            let (time, most) = (step.state.time@[b], env.max_time);
            let ahead = m.center_of_mass(env.walker, step.state.positions@[b]@).x;
            let fallen = !head.nan() && !low.nan() && head.value() <= low.value();
            let late = !time.nan() && !most.nan() && time.value() >= most.value();
            let arrived = !ahead.nan() && ahead.value() >= 10 * unit();
            &&& step.done@[b] == (fallen || late || arrived)
            &&& step.is_fallen@[b] == fallen
        }),
{
    lemma_whole_numbers();
    let squashed = choose|squashed: Seq<Vec<Single>>|
        {
            &&& #[trigger] are_squashed(arithmetic, action, squashed)
            &&& walked(env.walker, arithmetic, state, squashed, step.state)
            &&& env.judged(arithmetic, state, squashed, step)
        };
    assert(env.judged(arithmetic, state, squashed, step));
}

/// The torques by which a step was taken: the hyperbolic tangents of the action, row by row.
proof fn lemma_torques<A: Arithmetic>(
    env: TrainingEnv,
    arithmetic: A,
    state: PhysicsState,
    action: Seq<Vec<Single>>,
    step: TrainingStep,
) -> (squashed: Seq<Vec<Single>>)
    requires
        stepped(env, arithmetic, state, action, step),
    ensures
        are_squashed(arithmetic, action, squashed),
        walked(env.walker, arithmetic, state, squashed, step.state),
        env.judged(arithmetic, state, squashed, step),
{
    choose|squashed: Seq<Vec<Single>>|
        {
            &&& #[trigger] are_squashed(arithmetic, action, squashed)
            &&& walked(env.walker, arithmetic, state, squashed, step.state)
            &&& env.judged(arithmetic, state, squashed, step)
        }
}

/// The hyperbolic tangents of an action.
pub open spec fn torques_of(m: Operations, action: Seq<Single>) -> Seq<Single> {
    Seq::new(action.len(), |j: int| (m.tangent)(action[j]))
}

/// A step moves the walkers by the hyperbolic tangents of the action, and what is seen after it is the state
/// that it led to.
pub proof fn law_steps_walk_by_squashed_actions<A: Arithmetic>(
    env: TrainingEnv,
    arithmetic: A,
    m: Operations,
    state: PhysicsState,
    action: Seq<Vec<Single>>,
    step: TrainingStep,
)
    requires
        m.describes(arithmetic),
        stepped(env, arithmetic, state, action, step),
    ensures
        shows(env.walker, arithmetic, step.state, step.observation@),
        exists|squashed: Seq<Vec<Single>>|
            {
                &&& #[trigger] walked(env.walker, arithmetic, state, squashed, step.state)
                &&& squashed.len() == action.len()
                &&& forall|b: int, j: int|
                    0 <= b < action.len() && 0 <= j < action[b]@.len() ==> #[trigger] squashed[b]@[j]
                        == (m.tangent)(action[b]@[j])
                &&& forall|b: int|
                    0 <= b < action.len() ==> (#[trigger] squashed[b])@.len() == action[b]@.len()
            },
{
    let squashed = lemma_torques(env, arithmetic, state, action, step);
    assert(walked(env.walker, arithmetic, state, squashed, step.state));
    assert forall|b: int, j: int|
        0 <= b < action.len() && 0 <= j < action[b]@.len() implies #[trigger] squashed[b]@[j] == (
    m.tangent)(action[b]@[j]) by {
        assert(squashed[b]@ == m.tangents(action[b]@));
    }
}

/// What a step is worth comes of finite numbers.
pub open spec fn has_worth(
    m: Operations,
    speed: Single,
    target: Single,
    torques: Seq<Single>,
) -> bool {
    let away = (m.difference)(speed, target);
    let scaled = (m.product)((m.square)(away), Single::of(MINUS_4));
    let effort = (m.total)(m.squares(torques));
    &&& finite(speed)
    &&& finite(target)
    &&& finite(away)
    &&& finite((m.square)(away))
    &&& finite((m.exponential)(scaled))
    &&& finite(effort)
    &&& finite((m.product)(effort, Single::of(MINUS_0_1)))
}

/// A speed that is no farther from its target is worth no less, be it above or below.
proof fn lemma_nearer_speeds_are_worth_more(
    m: Operations,
    speed: Single,
    target: Single,
    other_speed: Single,
    other_target: Single,
    torques: Seq<Single>,
)
    requires
        is_faithful(m),
        is_odd(m),
        exponentiates_in_order(m),
        has_worth(m, speed, target, torques),
        has_worth(m, other_speed, other_target, torques),
        ({
            let away = speed.value() - target.value();
            let other_away = other_speed.value() - other_target.value();
            away * away <= other_away * other_away
        }),
    ensures
        !m.reward(speed, target, torques).nan(),
        m.reward(other_speed, other_target, torques).value() <= m.reward(
            speed,
            target,
            torques,
        ).value(),
{
    let four = Single::of(MINUS_4);
    lemma_whole_numbers();
    lemma_farther_differences(m, speed, target, other_speed, other_target);
    let (away, other_away) = (
        (m.difference)(speed, target),
        (m.difference)(other_speed, other_target),
    );
    assert((m.product)(away, away).value() <= (m.product)(other_away, other_away).value());
    let (miss, other_miss) = ((m.square)(away), (m.square)(other_away));
    assert(miss.value() <= other_miss.value());
    let f = four.value();
    assert(other_miss.value() * f <= miss.value() * f) by (nonlinear_arith)
        requires
            f <= 0,
            miss.value() <= other_miss.value(),
    ;
    let (scaled, other_scaled) = ((m.product)(miss, four), (m.product)(other_miss, four));
    assert(other_scaled.value() <= scaled.value());
    assert((m.exponential)(other_scaled).value() <= (m.exponential)(scaled).value());
}

/// A walker whose speed is no farther from its target earns no less for the same action, be it faster than
/// the target or slower.
pub proof fn law_nearer_speeds_are_worth_more<A: Arithmetic>(
    env: TrainingEnv,
    arithmetic: A,
    m: Operations,
    state: PhysicsState,
    action: Seq<Vec<Single>>,
    step: TrainingStep,
    b: int,
    other_state: PhysicsState,
    other_action: Seq<Vec<Single>>,
    other_step: TrainingStep,
    c: int,
)
    requires
        m.describes(arithmetic),
        is_faithful(m),
        is_odd(m),
        exponentiates_in_order(m),
        stepped(env, arithmetic, state, action, step),
        stepped(env, arithmetic, other_state, other_action, other_step),
        0 <= b < state.positions@.len() == action.len(),
        0 <= c < other_state.positions@.len() == other_action.len(),
        action[b]@ == other_action[c]@,
        ({
            let speed = m.speed(env.walker, state.positions@[b]@, step.state.positions@[b]@);
            let other_speed = m.speed(
                env.walker,
                other_state.positions@[c]@,
                other_step.state.positions@[c]@,
            );
            let (target, other_target) = (
                state.target_velocity@[b],
                other_state.target_velocity@[c],
            );
            let away = speed.value() - target.value();
            let other_away = other_speed.value() - other_target.value();
            &&& has_worth(m, speed, target, torques_of(m, action[b]@))
            &&& has_worth(m, other_speed, other_target, torques_of(m, action[b]@))
            &&& away * away <= other_away * other_away
        }),
    ensures
        other_step.reward@[c].value() <= step.reward@[b].value(),
{
    let squashed = lemma_torques(env, arithmetic, state, action, step);
    let other_squashed = lemma_torques(env, arithmetic, other_state, other_action, other_step);
    let torques = torques_of(m, action[b]@);
    assert(squashed[b]@ =~= torques);
    assert(other_squashed[c]@ =~= torques);
    let speed = m.speed(env.walker, state.positions@[b]@, step.state.positions@[b]@);
    let other_speed = m.speed(
        env.walker,
        other_state.positions@[c]@,
        other_step.state.positions@[c]@,
    );
    let (target, other_target) = (state.target_velocity@[b], other_state.target_velocity@[c]);
    lemma_nearer_speeds_are_worth_more(m, speed, target, other_speed, other_target, torques);
    assert(step.reward@[b] == m.reward(speed, target, torques).cleaned());
    assert(other_step.reward@[c] == m.reward(other_speed, other_target, torques).cleaned());
}

/// Speeds that mirror each other at the target are worth the same for the same action.
pub proof fn law_mirrored_speeds_are_worth_the_same<A: Arithmetic>(
    env: TrainingEnv,
    arithmetic: A,
    m: Operations,
    state: PhysicsState,
    action: Seq<Vec<Single>>,
    step: TrainingStep,
    b: int,
    other_state: PhysicsState,
    other_action: Seq<Vec<Single>>,
    other_step: TrainingStep,
    c: int,
)
    requires
        m.describes(arithmetic),
        is_faithful(m),
        is_odd(m),
        exponentiates_in_order(m),
        stepped(env, arithmetic, state, action, step),
        stepped(env, arithmetic, other_state, other_action, other_step),
        0 <= b < state.positions@.len() == action.len(),
        0 <= c < other_state.positions@.len() == other_action.len(),
        action[b]@ == other_action[c]@,
        state.target_velocity@[b] == other_state.target_velocity@[c],
        ({
            let speed = m.speed(env.walker, state.positions@[b]@, step.state.positions@[b]@);
            let other_speed = m.speed(
                env.walker,
                other_state.positions@[c]@,
                other_step.state.positions@[c]@,
            );
            let target = state.target_velocity@[b];
            &&& has_worth(m, speed, target, torques_of(m, action[b]@))
            &&& has_worth(m, other_speed, target, torques_of(m, action[b]@))
            &&& other_speed.value() - target.value() == target.value() - speed.value()
        }),
    ensures
        other_step.reward@[c].value() == step.reward@[b].value(),
{
    let speed = m.speed(env.walker, state.positions@[b]@, step.state.positions@[b]@);
    let target = state.target_velocity@[b];
    let (away, other_away) = (speed.value() - target.value(), target.value() - speed.value());
    assert(away * away == other_away * other_away) by (nonlinear_arith)
        requires
            other_away == -away,
    ;
    law_nearer_speeds_are_worth_more(
        env,
        arithmetic,
        m,
        state,
        action,
        step,
        b,
        other_state,
        other_action,
        other_step,
        c,
    );
    law_nearer_speeds_are_worth_more(
        env,
        arithmetic,
        m,
        other_state,
        other_action,
        other_step,
        c,
        state,
        action,
        step,
        b,
    );
}

/// Where nothing is rounded, a step is worth the exponential of minus four times the square of the distance
/// between the speed and the target, and a tenth less for the squares of the torques, which are the
/// hyperbolic tangents of the action. The distance is that which the center of mass went, by the time that
/// the step took.
pub proof fn law_what_a_step_is_worth<A: Arithmetic>(
    env: TrainingEnv,
    arithmetic: A,
    m: Operations,
    state: PhysicsState,
    action: Seq<Vec<Single>>,
    step: TrainingStep,
    b: int,
    exponent: Single,
)
    requires
        m.describes(arithmetic),
        is_faithful(m),
        exponentiates_in_order(m),
        stepped(env, arithmetic, state, action, step),
        0 <= b < state.positions@.len() == action.len(),
        ({
            let before = m.center_of_mass(env.walker, state.positions@[b]@).x;
            let after = m.center_of_mass(env.walker, step.state.positions@[b]@).x;
            let (dt, target) = (env.walker.config.time_step, state.target_velocity@[b]);
            let went = (m.difference)(after, before);
            let speed = (m.quotient)(went, dt);
            let away = (m.difference)(speed, target);
            let torques = torques_of(m, action[b]@);
            let effort = (m.total)(m.squares(torques));
            let penalty = (m.product)(effort, Single::of(MINUS_0_1));
            &&& difference_is_exact(m, after, before)
            &&& quotient_is_exact(m, went, dt)
            &&& difference_is_exact(m, speed, target)
            &&& square_is_exact(m, away)
            &&& finite((m.square)(away))
            &&& finite(exponent)
            &&& exponent.value() * unit() == -4 * ((speed.value() - target.value()) * (
            speed.value() - target.value()))
            &&& forall|j: int|
                0 <= j < torques.len() ==> square_is_exact(m, #[trigger] torques[j])
            &&& total_is_exact(m, m.squares(torques))
            &&& product_is_exact(m, effort, Single::of(MINUS_0_1))
            &&& finite((m.exponential)(exponent))
            &&& finite(penalty)
            &&& forall|a: Single|
                a.value() == exponent.value() ==> sum_is_exact(
                    m,
                    #[trigger] (m.exponential)(a),
                    penalty,
                )
        }),
    ensures
        ({
            let before = m.center_of_mass(env.walker, state.positions@[b]@).x;
            let after = m.center_of_mass(env.walker, step.state.positions@[b]@).x;
            let speed = m.speed(env.walker, state.positions@[b]@, step.state.positions@[b]@);
            speed.value() * env.walker.config.time_step.value() == (after.value() - before.value())
                * unit()
        }),
        (step.reward@[b].value() - (m.exponential)(exponent).value()) * unit() * unit()
            == Single::of(MINUS_0_1).value() * squared_total(torques_of(m, action[b]@)),
{
    let before = m.center_of_mass(env.walker, state.positions@[b]@).x;
    let after = m.center_of_mass(env.walker, step.state.positions@[b]@).x;
    let (dt, target) = (env.walker.config.time_step, state.target_velocity@[b]);
    let squashed = lemma_torques(env, arithmetic, state, action, step);
    let torques = torques_of(m, action[b]@);
    assert(squashed[b]@ =~= torques);
    lemma_whole_numbers();
    let went = (m.difference)(after, before);
    let speed = (m.quotient)(went, dt);
    let away = (m.difference)(speed, target);
    let (miss, u) = ((m.square)(away), unit());
    let distance = speed.value() - target.value();
    assert(exponent.value() == -4 * miss.value()) by {
        assert(exponent.value() * u == (-4 * miss.value()) * u) by (nonlinear_arith)
            requires
                exponent.value() * u == -4 * (distance * distance),
                miss.value() * u == distance * distance,
        ;
        lemma_cancel(exponent.value(), -4 * miss.value(), u);
    }
    assert(exponent.value() * u == miss.value() * (-4 * u)) by (nonlinear_arith)
        requires
            exponent.value() == -4 * miss.value(),
    ;
    law_products_stay_between(m, miss, Single::of(MINUS_4), exponent, exponent);
    let scaled = (m.product)(miss, Single::of(MINUS_4));
    assert((m.exponential)(scaled).value() == (m.exponential)(exponent).value());
    lemma_squared_total(m, torques);
    let effort = (m.total)(m.squares(torques));
    let penalty = (m.product)(effort, Single::of(MINUS_0_1));
    assert(sum_is_exact(m, (m.exponential)(scaled), penalty));
    let (c, e, p) = (Single::of(MINUS_0_1).value(), effort.value(), penalty.value());
    assert(p * u * u == c * (e * u)) by (nonlinear_arith)
        requires
            p * u == e * c,
    ;
    assert(step.reward@[b] == m.reward(speed, target, torques).cleaned());
    lemma_finite_between(
        (m.exponential)(scaled),
        (m.exponential)(exponent),
        (m.exponential)(exponent),
    );
}

/// A fall ends the episode.
pub proof fn law_a_fall_ends_the_episode(
    env: TrainingEnv,
    particles: Seq<Point>,
    time: Single,
    com_x: Single,
)
    requires
        env.falls(particles),
    ensures
        env.ends(particles, time, com_x),
{
}

/// No walker starts fallen.
pub proof fn law_fresh_walkers_stand(env: TrainingEnv, state: PhysicsState, b: int)
    requires
        env.wf(),
        state.positions@[b]@[0] == root_start(),
    ensures
        !env.falls(state.positions@[b]@),
{
    lemma_key_orders(Single::of(PLUS_1_3), Single::of(PLUS_1_6));
}

/// Every environment that starts afresh has its walker at rest, with the head at a height of 1.6, its time at
/// zero, and a velocity to walk at between minus one half and one and a half, as it was drawn; every edge is
/// turned by a draw between zero and one.
pub proof fn law_fresh_starts<A: Arithmetic, C: Chance>(
    env: TrainingEnv,
    arithmetic: A,
    m: Operations,
    chance: C,
    count: nat,
    observation: Vec<Vec<Single>>,
    state: PhysicsState,
    b: int,
    k: int,
)
    requires
        env.wf(),
        m.describes(arithmetic),
        was_reset(env, arithmetic, chance, count, Some((observation, state))),
        0 <= b < count,
        0 <= k < env.walker.n_particles,
    ensures
        state.positions@.len() == count,
        state.positions@[b]@.len() == env.walker.n_particles,
        state.positions@[b]@[0].x.value() == 0,
        state.positions@[b]@[0].y.bits == PLUS_1_6,
        state.velocities@[b]@[k].x.value() == 0,
        state.velocities@[b]@[k].y.value() == 0,
        state.time@[b].value() == 0,
        -unit() <= 2 * state.target_velocity@[b].value() <= 3 * unit(),
        call_ensures(
            C::draw,
            (&chance, Single::of(MINUS_0_5), Single::of(PLUS_1_5)),
            state.target_velocity@[b],
        ),
        shows(env.walker, arithmetic, state, observation@),
        exists|turns: Seq<Vec<Single>>|
            {
                &&& #[trigger] has_draws(turns, env.walker.edges@.len(), count)
                &&& state.positions@[b]@[k] == m.start(env.walker, draws_of(turns, b), k)
                &&& forall|e: int|
                    0 <= e < turns.len() ==> 0 <= (#[trigger] turns[e])@[b].value() <= unit()
            },
{
    lemma_whole_numbers();
    lemma_halves();
    let draws = choose|draws: Draws|
        {
            &&& #[trigger] draws.has(env.walker.edges@.len(), count)
            &&& draws.came_from(chance)
            &&& draws.in_range()
            &&& begun(env, arithmetic, count, draws, observation@, state)
        };
    assert(begun(env, arithmetic, count, draws, observation@, state));
    assert(is_fresh(state, b)) by {
        assert(state.positions@[b] == state.positions@[b]);
    }
    assert(state.positions@[b]@.len() == env.walker.n_particles);
    assert(state.velocities@[b]@.len() == env.walker.n_particles);
    assert(state.velocities@[b]@[k] == origin());
    assert(draws.target_velocity@[b] == state.target_velocity@[b]);
    let turns = draws.turns@;
    assert(has_draws(turns, env.walker.edges@.len(), count));
    assert forall|e: int| 0 <= e < turns.len() implies 0 <= (#[trigger] turns[e])@[b].value()
        <= unit() by {
        assert(lie_between(Single::of(ZERO), Single::of(ONE), draws.turns@[e]@));
        assert(turns[e]@.len() == count);
        let draw = turns[e]@[b];
        assert(Single::of(ZERO).up_to(draw) && draw.up_to(Single::of(ONE)));
    }
}

/// There is a fresh start unless a number was drawn outside the range that it was to be drawn from: from zero
/// to one for an edge, and from minus one half to one and a half for a velocity to walk at.
pub proof fn law_only_stray_draws_prevent_a_start<A: Arithmetic, C: Chance>(
    env: TrainingEnv,
    arithmetic: A,
    chance: C,
    count: nat,
)
    requires
        was_reset(env, arithmetic, chance, count, None),
    ensures
        exists|low: Single, high: Single, draw: Single|
            {
                &&& #[trigger] call_ensures(C::draw, (&chance, low, high), draw)
                &&& {
                    ||| low.bits == ZERO && high.bits == ONE
                    ||| low.bits == MINUS_0_5 && high.bits == PLUS_1_5
                }
                &&& draw.nan() || draw.value() < low.value() || draw.value() > high.value()
            },
{
    let draws = choose|draws: Draws|
        {
            &&& #[trigger] draws.has(env.walker.edges@.len(), count)
            &&& draws.came_from(chance)
            &&& !draws.in_range()
        };
    let (zero, one) = (Single::of(ZERO), Single::of(ONE));
    let (slow, fast) = (Single::of(MINUS_0_5), Single::of(PLUS_1_5));
    if !lie_between(slow, fast, draws.target_velocity@) {
        let i = choose|i: int|
            0 <= i < draws.target_velocity@.len() && !(slow.up_to(
                #[trigger] draws.target_velocity@[i],
            ) && draws.target_velocity@[i].up_to(fast));
        let draw = draws.target_velocity@[i];
        assert(call_ensures(C::draw, (&chance, slow, fast), draw));
    } else {
        let e = choose|e: int|
            0 <= e < draws.turns@.len() && !lie_between(zero, one, (#[trigger] draws.turns@[e])@);
        let row = draws.turns@[e]@;
        assert(were_drawn(chance, zero, one, draws.turns@[e]@));
        let i = choose|i: int|
            0 <= i < row.len() && !(zero.up_to(#[trigger] row[i]) && row[i].up_to(one));
        assert(call_ensures(C::draw, (&chance, zero, one), row[i]));
    }
}

/// Exchanging environments keeps the shape of the state.
pub proof fn law_exchanging_keeps_the_shape(
    own: PhysicsState,
    mask: Seq<bool>,
    other: PhysicsState,
    r: PhysicsState,
    particles: nat,
)
    requires
        own.holds(mask.len(), particles),
        other.holds(mask.len(), particles),
        EnvironmentState::exchanged(own, mask, other, r),
    ensures
        r.holds(mask.len(), particles),
{
    assert forall|b: int| 0 <= b < mask.len() implies (#[trigger] r.positions@[b])@.len() == particles by {
        assert(own.positions@[b]@.len() == particles);
        assert(other.positions@[b]@.len() == particles);
    }
    assert forall|b: int| 0 <= b < mask.len() implies (#[trigger] r.velocities@[b])@.len() == particles by {
        assert(own.velocities@[b]@.len() == particles);
        assert(other.velocities@[b]@.len() == particles);
    }
}

} // verus!
