//! Proximal policy optimization: its settings and the order of its work.

use crate::minibatch::batch_count;
use crate::numbers::{
    LEARNING_RATE, ONE_HUNDREDTH, PLUS_0_2, PLUS_0_5, PLUS_0_95, PLUS_0_99, PLUS_10,
};
use crate::single::{Double, Single};
use vstd::prelude::*;

verus! {

/// The settings of the training.
pub struct ProximalPolicyOptimizationConfig {
    pub environments_count: usize,
    pub rollout_length: usize,
    pub gamma: Single,
    pub generalized_advantage_estimation_lambda: Single,
    pub proximal_policy_optimization_clip: Single,
    pub entropy_coefficient: Single,
    pub value_coefficient: Single,
    pub learning_rate: Double,
    pub update_epochs: usize,
    pub minibatches: usize,
    pub max_grad_norm: Single,
    pub max_time: Single,
}

impl ProximalPolicyOptimizationConfig {
    /// The settings by default.
    pub fn new() -> (r: Self)
        ensures
            r.environments_count == 1024,
            r.rollout_length == 128,
            r.gamma.bits == PLUS_0_99,
            r.generalized_advantage_estimation_lambda.bits == PLUS_0_95,
            r.proximal_policy_optimization_clip.bits == PLUS_0_2,
            r.entropy_coefficient.bits == ONE_HUNDREDTH,
            r.value_coefficient.bits == PLUS_0_5,
            r.learning_rate.bits == LEARNING_RATE,
            r.update_epochs == 4,
            r.minibatches == 32,
            r.max_grad_norm.bits == PLUS_0_5,
            r.max_time.bits == PLUS_10,
    {
        ProximalPolicyOptimizationConfig {
            environments_count: 1024,
            rollout_length: 128,
            gamma: Single { bits: PLUS_0_99 },
            generalized_advantage_estimation_lambda: Single { bits: PLUS_0_95 },
            proximal_policy_optimization_clip: Single { bits: PLUS_0_2 },
            entropy_coefficient: Single { bits: ONE_HUNDREDTH },
            value_coefficient: Single { bits: PLUS_0_5 },
            learning_rate: Double { bits: LEARNING_RATE },
            update_epochs: 4,
            minibatches: 32,
            max_grad_norm: Single { bits: PLUS_0_5 },
            max_time: Single { bits: PLUS_10 },
        }
    }

    /// The number of samples of one rollout.
    pub open spec fn samples(&self) -> nat {
        (self.environments_count * self.rollout_length) as nat
    }

    /// A rollout has this many samples.
    pub open spec fn has_samples(&self, count: int) -> bool {
        count == self.samples()
    }

    /// A minibatch that is full has this many samples.
    pub open spec fn has_batches_of(&self, size: int) -> bool {
        size == self.samples() / self.minibatches as nat
    }

    /// The number of samples of one rollout.
    pub fn number_of_samples(&self) -> (r: usize)
        requires
            self.samples() <= usize::MAX,
        ensures
            r == self.samples(),
            self.has_samples(r as int),
    {
        self.environments_count * self.rollout_length
    }

    /// The number of samples of a minibatch.
    pub fn batch_size(&self) -> (r: usize)
        requires
            self.samples() <= usize::MAX,
            self.minibatches > 0,
        ensures
            r == self.samples() / self.minibatches as nat,
            self.minibatches <= self.samples() ==> r > 0,
            self.has_batches_of(r as int),
    {
        let samples = self.number_of_samples();
        proof {
            if self.minibatches <= samples {
                assert(samples as int / self.minibatches as int > 0) by (nonlinear_arith)
                    requires
                        samples >= self.minibatches,
                        self.minibatches > 0,
                ;
            }
        }
        samples / self.minibatches
    }
}

/// A piece of the work of the training.
#[derive(Clone, Copy, Debug, PartialEq, Eq, Structural)]
pub enum Work {
    /// Collect a rollout, with totals where they are wanted, and estimate the advantages.
    Collect { metrics: bool },
    /// Improve the agent by the samples of the rollout.
    Update,
    /// Report on iteration `iteration`.
    Report { iteration: usize },
    /// Save the agent.
    Save,
    /// Report the end of the training and save the agent.
    Finish,
}

/// Every tenth iteration is reported on, and the last.
pub open spec fn is_reported(iteration: int, iterations: int) -> bool {
    iteration % 10 == 0 || iteration == iterations - 1
}

/// After every tenth iteration the agent is saved.
pub open spec fn is_saved(iteration: int) -> bool {
    iteration % 10 == 0
}

/// What follows the update of an iteration.
pub open spec fn closing(iteration: int, iterations: int) -> Seq<Work> {
    let report = if is_reported(iteration, iterations) {
        seq![Work::Report { iteration: iteration as usize }]
    } else {
        Seq::empty()
    };
    let save = if is_saved(iteration) {
        seq![Work::Save]
    } else {
        Seq::empty()
    };
    report + save
}

/// The work of one iteration.
pub open spec fn iteration_work(iteration: int, iterations: int) -> Seq<Work> {
    seq![Work::Collect { metrics: is_reported(iteration, iterations) }, Work::Update] + closing(
        iteration,
        iterations,
    )
}

/// The work from iteration `iteration` to the end.
pub open spec fn work_from(iteration: int, iterations: int) -> Seq<Work>
    decreases iterations - iteration,
{
    if iteration >= iterations {
        seq![Work::Finish]
    } else {
        iteration_work(iteration, iterations) + work_from(iteration + 1, iterations)
    }
}

/// What the training does next.
#[derive(Clone, Copy, Debug, PartialEq, Eq, Structural)]
pub enum Stage {
    Collecting,
    Updating,
    Reporting,
    Saving,
    Finishing,
    Finished,
}

/// A training under way, which hands out its work piece by piece.
pub struct Training {
    pub iterations: usize,
    pub iteration: usize,
    pub stage: Stage,
}

impl Training {
    /// The stage is one that the iteration can be in.
    pub open spec fn wf(&self) -> bool {
        match self.stage {
            Stage::Collecting => self.iteration < self.iterations,
            Stage::Updating => self.iteration < self.iterations,
            Stage::Reporting => self.iteration < self.iterations && is_reported(
                self.iteration as int,
                self.iterations as int,
            ),
            Stage::Saving => self.iteration < self.iterations && is_saved(self.iteration as int),
            Stage::Finishing => true,
            Stage::Finished => true,
        }
    }

    /// The work that is left.
    pub open spec fn remaining(&self) -> Seq<Work> {
        let (i, n) = (self.iteration as int, self.iterations as int);
        match self.stage {
            Stage::Collecting => work_from(i, n),
            Stage::Updating => seq![Work::Update] + closing(i, n) + work_from(i + 1, n),
            Stage::Reporting => closing(i, n) + work_from(i + 1, n),
            Stage::Saving => seq![Work::Save] + work_from(i + 1, n),
            Stage::Finishing => seq![Work::Finish],
            Stage::Finished => Seq::empty(),
        }
    }

    /// The training is one of `iterations` iterations that is about to begin.
    pub open spec fn begins(&self, iterations: int) -> bool {
        self.iterations == iterations && self.remaining() == work_from(0, iterations)
    }

    /// Starts a training of `iterations` iterations.
    pub fn new(iterations: usize) -> (r: Self)
        ensures
            r.wf(),
            r.remaining() == work_from(0, iterations as int),
            r.begins(iterations as int),
    {
        Training {
            iterations,
            iteration: 0,
            stage: if iterations > 0 {
                Stage::Collecting
            } else {
                Stage::Finishing
            },
        }
    }

    /// Whether the present iteration is reported on.
    fn reports(&self) -> (r: bool)
        requires
            self.iteration < self.iterations,
        ensures
            r == is_reported(self.iteration as int, self.iterations as int),
    {
        self.iteration % 10 == 0 || self.iteration == self.iterations - 1
    }

    /// Goes on to the next iteration, or to the end after the last.
    fn advance(&mut self)
        requires
            old(self).iteration < old(self).iterations,
        ensures
            final(self).wf(),
            final(self).iterations == old(self).iterations,
            final(self).remaining() == work_from(
                old(self).iteration + 1,
                old(self).iterations as int,
            ),
    {
        self.iteration = self.iteration + 1;
        self.stage = if self.iteration < self.iterations {
            Stage::Collecting
        } else {
            Stage::Finishing
        };
    }

    /// What handing out a piece of work makes of the training.
    pub open spec fn hands_out(self, work: Option<Work>, after: Self) -> bool {
        &&& after.iterations == self.iterations
        &&& self.remaining().len() == 0 ==> work is None && after == self
        &&& self.remaining().len() > 0 ==> {
            &&& work == Some(self.remaining().first())
            &&& after.remaining() == self.remaining().drop_first()
        }
    }

    /// Hands out the next piece of work, or none once there is none left.
    pub fn next(&mut self) -> (work: Option<Work>)
        requires
            old(self).wf(),
        ensures
            final(self).wf(),
            old(self).remaining().len() == 0 ==> work is None && *final(self) == *old(self),
            old(self).remaining().len() > 0 ==> {
                &&& work == Some(old(self).remaining().first())
                &&& final(self).remaining() == old(self).remaining().drop_first()
            },
            old(self).hands_out(work, *final(self)),
    {
        let ghost before = self.remaining();
        match self.stage {
            Stage::Collecting => {
                let metrics = self.reports();
                self.stage = Stage::Updating;
                assert(before.drop_first() =~= self.remaining());
                Some(Work::Collect { metrics })
            },
            Stage::Updating => {
                if self.reports() {
                    self.stage = Stage::Reporting;
                } else {
                    self.advance();
                }
                assert(before.drop_first() =~= self.remaining());
                Some(Work::Update)
            },
            Stage::Reporting => {
                let iteration = self.iteration;
                if iteration % 10 == 0 {
                    self.stage = Stage::Saving;
                } else {
                    self.advance();
                }
                assert(before.drop_first() =~= self.remaining());
                Some(Work::Report { iteration })
            },
            Stage::Saving => {
                self.advance();
                assert(before.drop_first() =~= self.remaining());
                Some(Work::Save)
            },
            Stage::Finishing => {
                self.stage = Stage::Finished;
                assert(before.drop_first() =~= self.remaining());
                Some(Work::Finish)
            },
            Stage::Finished => None,
        }
    }
}

/// The training ends with one piece of work that finishes it, and finishes nowhere else.
pub proof fn law_training_finishes_once(iteration: int, iterations: int)
    ensures
        work_from(iteration, iterations).len() > 0,
        work_from(iteration, iterations).last() == Work::Finish,
        forall|k: int|
            0 <= k < work_from(iteration, iterations).len() - 1 ==> #[trigger] work_from(
                iteration,
                iterations,
            )[k] != Work::Finish,
    decreases iterations - iteration,
{
    if iteration < iterations {
        law_training_finishes_once(iteration + 1, iterations);
        let now = iteration_work(iteration, iterations);
        let rest = work_from(iteration + 1, iterations);
        assert forall|k: int| 0 <= k < (now + rest).len() - 1 implies #[trigger] (now + rest)[k]
            != Work::Finish by {
            if k >= now.len() {
                assert((now + rest)[k] == rest[k - now.len()]);
            }
        }
    }
}

/// The number of pieces of work of a kind.
pub open spec fn pieces(work: Seq<Work>, kind: spec_fn(Work) -> bool) -> nat
    decreases work.len(),
{
    if work.len() == 0 {
        0
    } else {
        pieces(work.drop_first(), kind) + if kind(work.first()) {
            1nat
        } else {
            0nat
        }
    }
}

proof fn lemma_pieces_of_both(a: Seq<Work>, b: Seq<Work>, kind: spec_fn(Work) -> bool)
    ensures
        pieces(a + b, kind) == pieces(a, kind) + pieces(b, kind),
    decreases a.len(),
{
    if a.len() == 0 {
        assert(a + b =~= b);
    } else {
        lemma_pieces_of_both(a.drop_first(), b, kind);
        assert((a + b).drop_first() =~= a.drop_first() + b);
    }
}

proof fn lemma_pieces_of_one(work: Work, kind: spec_fn(Work) -> bool)
    ensures
        pieces(seq![work], kind) == if kind(work) {
            1nat
        } else {
            0nat
        },
{
    assert(seq![work].drop_first() =~= Seq::<Work>::empty());
    assert(pieces(Seq::<Work>::empty(), kind) == 0);
}

/// The pieces of one kind in an iteration and in what follows it.
proof fn lemma_pieces_of_iteration(iteration: int, iterations: int, kind: spec_fn(Work) -> bool)
    requires
        iteration < iterations,
    ensures
        pieces(work_from(iteration, iterations), kind) == (if kind(
            Work::Collect { metrics: is_reported(iteration, iterations) },
        ) {
            1nat
        } else {
            0nat
        }) + (if kind(Work::Update) {
            1nat
        } else {
            0nat
        }) + (if is_reported(iteration, iterations) && kind(
            Work::Report { iteration: iteration as usize },
        ) {
            1nat
        } else {
            0nat
        }) + (if is_saved(iteration) && kind(Work::Save) {
            1nat
        } else {
            0nat
        }) + pieces(work_from(iteration + 1, iterations), kind),
{
    let collect = Work::Collect { metrics: is_reported(iteration, iterations) };
    let first = seq![collect, Work::Update];
    let report = if is_reported(iteration, iterations) {
        seq![Work::Report { iteration: iteration as usize }]
    } else {
        Seq::empty()
    };
    let save = if is_saved(iteration) {
        seq![Work::Save]
    } else {
        Seq::empty()
    };
    lemma_pieces_of_one(collect, kind);
    lemma_pieces_of_one(Work::Update, kind);
    lemma_pieces_of_one(Work::Report { iteration: iteration as usize }, kind);
    lemma_pieces_of_one(Work::Save, kind);
    assert(first =~= seq![collect] + seq![Work::Update]);
    lemma_pieces_of_both(seq![collect], seq![Work::Update], kind);
    lemma_pieces_of_both(report, save, kind);
    lemma_pieces_of_both(first, closing(iteration, iterations), kind);
    lemma_pieces_of_both(
        iteration_work(iteration, iterations),
        work_from(iteration + 1, iterations),
        kind,
    );
}

/// Every iteration collects one rollout and updates the agent once.
pub proof fn law_every_iteration_collects_and_updates(iteration: int, iterations: int)
    requires
        iteration <= iterations,
    ensures
        pieces(work_from(iteration, iterations), |w: Work| w is Collect) == iterations - iteration,
        pieces(work_from(iteration, iterations), |w: Work| w is Update) == iterations - iteration,
    decreases iterations - iteration,
{
    let collects = |w: Work| w is Collect;
    let updates = |w: Work| w is Update;
    if iteration < iterations {
        law_every_iteration_collects_and_updates(iteration + 1, iterations);
        lemma_pieces_of_iteration(iteration, iterations, collects);
        lemma_pieces_of_iteration(iteration, iterations, updates);
    } else {
        lemma_pieces_of_one(Work::Finish, collects);
        lemma_pieces_of_one(Work::Finish, updates);
    }
}

/// Every tenth iteration is reported on, and the last, each once; no other iteration is.
pub proof fn law_tenth_and_last_iterations_are_reported(
    iteration: int,
    iterations: int,
    reported: usize,
)
    requires
        0 <= iteration <= iterations <= usize::MAX,
    ensures
        pieces(
            work_from(iteration, iterations),
            |w: Work| w == Work::Report { iteration: reported },
        ) == if iteration <= reported < iterations && (reported % 10 == 0 || reported
            == iterations - 1) {
            1nat
        } else {
            0nat
        },
    decreases iterations - iteration,
{
    let kind = |w: Work| w == Work::Report { iteration: reported };
    if iteration < iterations {
        law_tenth_and_last_iterations_are_reported(iteration + 1, iterations, reported);
        lemma_pieces_of_iteration(iteration, iterations, kind);
    } else {
        lemma_pieces_of_one(Work::Finish, kind);
    }
}

/// The agent is saved once for every tenth iteration.
pub proof fn law_agent_is_saved_every_tenth_iteration(iterations: int)
    requires
        0 <= iterations,
    ensures
        pieces(work_from(0, iterations), |w: Work| w is Save) == (iterations + 9) / 10,
{
    lemma_saves_from(0, iterations);
}

proof fn lemma_saves_from(iteration: int, iterations: int)
    requires
        0 <= iteration <= iterations,
    ensures
        pieces(work_from(iteration, iterations), |w: Work| w is Save) == (iterations + 9) / 10 - (
        iteration + 9) / 10,
    decreases iterations - iteration,
{
    let kind = |w: Work| w is Save;
    if iteration < iterations {
        lemma_saves_from(iteration + 1, iterations);
        lemma_pieces_of_iteration(iteration, iterations, kind);
    } else {
        lemma_pieces_of_one(Work::Finish, kind);
    }
}

/// Handed out piece by piece, the work of a training of `iterations` iterations starts with a rollout, which
/// is followed by an update; an update is followed by the report of its iteration, where it is a tenth or
/// the last, and by saving the agent, where it is a tenth; and the next rollout, or, after the last
/// iteration, the end. Totals are wanted of a rollout just where it is reported on.
pub proof fn law_work_is_handed_out_in_turn(iteration: int, iterations: int)
    requires
        0 <= iteration < iterations <= usize::MAX,
    ensures
        ({
            let work = work_from(iteration, iterations);
            let (tenth, last) = (iteration % 10 == 0, iteration + 1 == iterations);
            let reports = if tenth || last {
                1int
            } else {
                0
            };
            let saves = if tenth {
                1int
            } else {
                0
            };
            &&& work[0] == Work::Collect { metrics: tenth || last }
            &&& work[1] == Work::Update
            &&& tenth || last ==> work[2] == Work::Report { iteration: iteration as usize }
            &&& tenth ==> work[2 + reports] == Work::Save
            &&& last ==> work[2 + reports + saves] == Work::Finish
            &&& !last ==> forall|k: int|
                0 <= k < work_from(iteration + 1, iterations).len() ==> #[trigger] work_from(
                    iteration + 1,
                    iterations,
                )[k] == work[2 + reports + saves + k]
        }),
{
    let now = iteration_work(iteration, iterations);
    let rest = work_from(iteration + 1, iterations);
    assert(work_from(iteration, iterations) == now + rest);
    if iteration + 1 == iterations {
        assert(rest == seq![Work::Finish]);
        assert((now + rest)[now.len() as int] == rest[0]);
    } else {
        assert forall|k: int| 0 <= k < rest.len() implies #[trigger] rest[k] == (now + rest)[now.len()
            + k] by {}
    }
}

/// A training that hands out its work leaves what comes after it, so that the pieces handed out one after
/// the other are the work of the training.
pub proof fn law_handing_out_goes_on(runs: Seq<Training>, work: Seq<Work>, k: int)
    requires
        runs.len() == work.len() + 1,
        forall|i: int|
            0 <= i < work.len() ==> (#[trigger] runs[i]).hands_out(Some(work[i]), runs[i + 1]),
        0 <= k <= work.len(),
    ensures
        k <= runs[0].remaining().len(),
        runs[k].remaining() == runs[0].remaining().skip(k),
        forall|i: int| 0 <= i < k ==> #[trigger] work[i] == runs[0].remaining()[i],
    decreases k,
{
    if k > 0 {
        law_handing_out_goes_on(runs, work, k - 1);
        assert(runs[k - 1].hands_out(Some(work[k - 1]), runs[k]));
        assert(runs[k].remaining() =~= runs[0].remaining().skip(k));
    } else {
        assert(runs[0].remaining() =~= runs[0].remaining().skip(0));
    }
}

/// A training that is about to begin has every iteration ahead: as many rollouts to collect and as many
/// updates to make, a report on the first iteration and on the last, and one piece of work that finishes it.
pub proof fn law_trainings_begin_with_all_work_ahead(training: Training, iterations: int)
    requires
        training.begins(iterations),
    ensures
        pieces(training.remaining(), |w: Work| w is Collect) == iterations,
        pieces(training.remaining(), |w: Work| w is Update) == iterations,
        iterations == 0 ==> training.remaining() =~= seq![Work::Finish],
        iterations > 0 ==> training.remaining()[0] == (Work::Collect { metrics: true }),
        iterations > 0 ==> pieces(
            training.remaining(),
            |w: Work| w == Work::Report { iteration: 0 },
        ) == 1,
        iterations > 0 ==> pieces(
            training.remaining(),
            |w: Work| w == Work::Report { iteration: (iterations - 1) as usize },
        ) == 1,
        training.remaining().last() == Work::Finish,
{
    law_every_iteration_collects_and_updates(0, iterations);
    law_training_finishes_once(0, iterations);
    if iterations > 0 {
        law_tenth_and_last_iterations_are_reported(0, iterations, 0);
        law_tenth_and_last_iterations_are_reported(0, iterations, (iterations - 1) as usize);
    }
}

/// Every environment has a sample for each step of a rollout: one more environment has as many more samples
/// as there are steps, and one more step as many more as there are environments.
pub proof fn law_every_environment_has_a_sample_for_each_step(
    config: ProximalPolicyOptimizationConfig,
    count: int,
    other: ProximalPolicyOptimizationConfig,
    other_count: int,
)
    requires
        config.has_samples(count),
        other.has_samples(other_count),
    ensures
        config.environments_count == 0 || config.rollout_length == 0 ==> count == 0,
        other.environments_count == config.environments_count + 1 && other.rollout_length
            == config.rollout_length ==> other_count == count + config.rollout_length,
        other.environments_count == config.environments_count && other.rollout_length
            == config.rollout_length + 1 ==> other_count == count + config.environments_count,
{
    let (e, l) = (config.environments_count as int, config.rollout_length as int);
    assert((e + 1) * l == e * l + l) by (nonlinear_arith);
    assert(e * (l + 1) == e * l + e) by (nonlinear_arith);
    assert(e == 0 || l == 0 ==> e * l == 0) by (nonlinear_arith);
    assert(count >= 0);
}

/// A minibatch is as large as it can be, if there are to be as many as are set.
pub proof fn law_minibatches_are_as_large_as_can_be(
    config: ProximalPolicyOptimizationConfig,
    size: int,
)
    requires
        config.has_batches_of(size),
        config.minibatches > 0,
    ensures
        size * config.minibatches <= config.environments_count * config.rollout_length,
        config.environments_count * config.rollout_length < (size + 1) * config.minibatches,
{
    let (n, m) = (config.samples() as int, config.minibatches as int);
    assert(size * m <= n < (size + 1) * m) by (nonlinear_arith)
        requires
            m > 0,
            size == n / m,
    ;
}

/// A pass over the samples has at least as many minibatches as are set, and just as many where these
/// divide the samples evenly.
pub proof fn law_a_pass_has_the_set_minibatches(config: ProximalPolicyOptimizationConfig)
    requires
        0 < config.minibatches <= config.samples(),
    ensures
        ({
            let size = config.samples() / config.minibatches as nat;
            &&& size > 0
            &&& batch_count(config.samples(), size) >= config.minibatches
            &&& config.samples() % config.minibatches as nat == 0 ==> batch_count(
                config.samples(),
                size,
            ) == config.minibatches
        }),
{
    let (n, m) = (config.samples() as int, config.minibatches as int);
    let size = n / m;
    assert(n == size * m + n % m && 0 <= n % m < m && size > 0) by (nonlinear_arith)
        requires
            0 < m <= n,
            size == n / m,
    ;
    let count = n / size;
    assert(count >= m) by (nonlinear_arith)
        requires
            n >= size * m,
            size > 0,
            count == n / size,
    ;
    if n % m == 0 {
        assert(count == m && n % size == 0) by (nonlinear_arith)
            requires
                n == size * m,
                size > 0,
                count == n / size,
        ;
    }
}

} // verus!
