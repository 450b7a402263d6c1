use walker_rl::advantage::compute_generalized_advantage_estimation;
use walker_rl::arithmetic::Arithmetic;
use walker_rl::decision::{Outlook, Policy};
use walker_rl::joining::{join_marks, join_numbers, join_rows};
use walker_rl::minibatch::{cut, shuffled_minibatches};
use walker_rl::model::Normalizer;
use walker_rl::ppo::{ProximalPolicyOptimizationConfig, Training, Work};
use walker_rl::preparation::prepare;
use walker_rl::report::Clock;
use walker_rl::rollout::Rollout;
use walker_rl::single::Single;
use walker_rl::statistics::standardize;
use walker_rl::update::{pass, update, Learner, Samples};

fn single(x: f32) -> Single {
    Single { bits: x.to_bits() }
}

fn float(x: Single) -> f32 {
    f32::from_bits(x.bits)
}

/// The arithmetic of the machine, with one pattern for what is not a number.
struct Machine;

fn tidy(x: f32) -> Single {
    single(if x.is_nan() { f32::NAN } else { x })
}

impl Arithmetic for Machine {
    fn sum(&self, a: Single, b: Single) -> Single {
        tidy(float(a) + float(b))
    }

    fn difference(&self, a: Single, b: Single) -> Single {
        tidy(float(a) - float(b))
    }

    fn product(&self, a: Single, b: Single) -> Single {
        tidy(float(a) * float(b))
    }

    fn quotient(&self, a: Single, b: Single) -> Single {
        tidy(float(a) / float(b))
    }

    fn root(&self, a: Single) -> Single {
        tidy(float(a).sqrt())
    }

    fn square(&self, a: Single) -> Single {
        tidy(float(a) * float(a))
    }

    fn cosine(&self, a: Single) -> Single {
        tidy(float(a).cos())
    }

    fn sine(&self, a: Single) -> Single {
        tidy(float(a).sin())
    }

    fn tangent(&self, a: Single) -> Single {
        tidy(float(a).tanh())
    }

    fn exponential(&self, a: Single) -> Single {
        tidy(float(a).exp())
    }

    fn whole(&self, n: usize) -> Single {
        single(n as f32)
    }

    fn total(&self, numbers: &Vec<Single>) -> Single {
        tidy(numbers.iter().fold(0.0, |sum, x| sum + float(*x)))
    }

    fn dot(&self, a: &Vec<Single>, b: &Vec<Single>) -> Single {
        tidy(a.iter().zip(b).fold(0.0, |sum, (x, y)| sum + float(*x) * float(*y)))
    }
}

fn numbers(list: &[f32]) -> Vec<Single> {
    list.iter().map(|x| single(*x)).collect()
}

fn rows(list: &[&[f32]]) -> Vec<Vec<Single>> {
    list.iter().map(|row| numbers(row)).collect()
}

#[test]
fn default_settings_have_their_values() {
    let config = ProximalPolicyOptimizationConfig::new();
    assert_eq!(config.environments_count, 1024);
    assert_eq!(config.rollout_length, 128);
    assert_eq!(f32::from_bits(config.gamma.bits), 0.99);
    assert_eq!(f32::from_bits(config.generalized_advantage_estimation_lambda.bits), 0.95);
    assert_eq!(f32::from_bits(config.proximal_policy_optimization_clip.bits), 0.2);
    assert_eq!(f32::from_bits(config.entropy_coefficient.bits), 0.01);
    assert_eq!(f32::from_bits(config.value_coefficient.bits), 0.5);
    assert_eq!(f64::from_bits(config.learning_rate.bits), 3e-4);
    assert_eq!(config.update_epochs, 4);
    assert_eq!(config.minibatches, 32);
    assert_eq!(f32::from_bits(config.max_grad_norm.bits), 0.5);
    assert_eq!(f32::from_bits(config.max_time.bits), 10.0);
    assert_eq!(config.number_of_samples(), 131072);
    assert_eq!(config.batch_size(), 4096);
}

fn work(iterations: usize) -> Vec<Work> {
    let mut training = Training::new(iterations);
    let mut all = Vec::new();
    while let Some(piece) = training.next() {
        all.push(piece);
    }
    assert_eq!(training.next(), None);
    all
}

#[test]
fn no_iteration_only_finishes() {
    assert_eq!(work(0), vec![Work::Finish]);
}

#[test]
fn one_iteration_reports_and_saves() {
    assert_eq!(
        work(1),
        vec![
            Work::Collect { metrics: true },
            Work::Update,
            Work::Report { iteration: 0 },
            Work::Save,
            Work::Finish,
        ]
    );
}

#[test]
fn the_last_iteration_is_reported_without_saving() {
    assert_eq!(
        work(3),
        vec![
            Work::Collect { metrics: true },
            Work::Update,
            Work::Report { iteration: 0 },
            Work::Save,
            Work::Collect { metrics: false },
            Work::Update,
            Work::Collect { metrics: true },
            Work::Update,
            Work::Report { iteration: 2 },
            Work::Finish,
        ]
    );
}

#[test]
fn work_is_done_as_often_as_it_should() {
    for iterations in [0usize, 1, 9, 10, 11, 20, 25] {
        let all = work(iterations);
        assert_eq!(all.iter().filter(|w| matches!(w, Work::Collect { .. })).count(), iterations);
        assert_eq!(all.iter().filter(|w| **w == Work::Update).count(), iterations);
        assert_eq!(all.iter().filter(|w| **w == Work::Save).count(), (iterations + 9) / 10);
        assert_eq!(all.iter().filter(|w| **w == Work::Finish).count(), 1);
        assert_eq!(*all.last().unwrap(), Work::Finish);
        for i in 0..iterations {
            let reports = all.iter().filter(|w| **w == Work::Report { iteration: i }).count();
            assert_eq!(reports, (i % 10 == 0 || i + 1 == iterations) as usize);
        }
    }
}

/// Remembers the samples that it is given, each by its number.
struct Memory;

impl Learner for Memory {
    type Agent = Vec<Vec<i64>>;

    fn learn(&self, agent: Vec<Vec<i64>>, samples: &Samples) -> Vec<Vec<i64>> {
        let mut agent = agent;
        for i in 0..samples.actions.len() {
            let number = float(samples.log_probabilities[i]);
            assert_eq!(samples.observations[i], numbers(&[number, number + 0.5]));
            assert_eq!(samples.actions[i], numbers(&[-number]));
            assert_eq!(samples.returned[i], single(2.0 * number));
            assert_eq!(samples.advantages[i], single(3.0 * number));
            assert_eq!(samples.old_values[i], single(4.0 * number));
        }
        agent.push(samples.log_probabilities.iter().map(|x| float(*x) as i64).collect());
        agent
    }
}

/// Samples that can be told apart by their number.
fn numbered(count: usize) -> Samples {
    let list = |factor: f32| -> Vec<Single> {
        (0..count).map(|i| single(factor * i as f32)).collect()
    };
    Samples {
        observations: (0..count).map(|i| numbers(&[i as f32, i as f32 + 0.5])).collect(),
        actions: (0..count).map(|i| numbers(&[-(i as f32)])).collect(),
        log_probabilities: list(1.0),
        returned: list(2.0),
        advantages: list(3.0),
        old_values: list(4.0),
    }
}

fn small_config(update_epochs: usize) -> ProximalPolicyOptimizationConfig {
    let mut config = ProximalPolicyOptimizationConfig::new();
    config.environments_count = 10;
    config.rollout_length = 3;
    config.minibatches = 4;
    config.update_epochs = update_epochs;
    config
}

#[test]
fn a_pass_learns_from_every_sample_once() {
    let memory = pass(&Memory, vec![vec![-1]], &small_config(1), &numbered(30));
    assert_eq!(memory[0], vec![-1]);
    let sizes: Vec<usize> = memory[1..].iter().map(|batch| batch.len()).collect();
    assert_eq!(sizes, vec![7, 7, 7, 7, 2]);
    let mut all: Vec<i64> = memory[1..].concat();
    all.sort();
    assert_eq!(all, (0..30).collect::<Vec<i64>>());
}

#[test]
fn an_update_passes_as_often_as_set() {
    let memory = update(&Memory, vec![], &small_config(3), &numbered(30));
    assert_eq!(memory.len(), 15);
    for epoch in 0..3 {
        let mut all: Vec<i64> = memory[5 * epoch..5 * epoch + 5].concat();
        all.sort();
        assert_eq!(all, (0..30).collect::<Vec<i64>>());
    }
    assert!(update(&Memory, vec![], &small_config(0), &numbered(30)).is_empty());
}

#[test]
fn samples_are_chosen_in_their_order() {
    let part = numbered(5).choose_samples(&vec![4, 0, 4]);
    assert_eq!(part.log_probabilities, numbers(&[4.0, 0.0, 4.0]));
    assert_eq!(part.observations, rows(&[&[4.0, 4.5], &[0.0, 0.5], &[4.0, 4.5]]));
    assert_eq!(part.actions, rows(&[&[-4.0], &[-0.0], &[-4.0]]));
    assert_eq!(part.returned, numbers(&[8.0, 0.0, 8.0]));
    assert_eq!(part.advantages, numbers(&[12.0, 0.0, 12.0]));
    assert_eq!(part.old_values, numbers(&[16.0, 0.0, 16.0]));
    assert!(numbered(5).choose_samples(&vec![]).actions.is_empty());
}

#[test]
fn samples_stand_step_after_step() {
    let mut rollout = Rollout::new(2);
    for t in 0..2 {
        let at = |b: usize| (10 * t + b) as f32;
        rollout.push(
            (0..3).map(|b| numbers(&[at(b)])).collect(),
            (0..3).map(|b| numbers(&[at(b) + 0.25])).collect(),
            (0..3).map(|b| single(at(b) + 0.5)).collect(),
            (0..3).map(|b| single(at(b) + 0.75)).collect(),
            vec![single(0.0); 3],
            vec![false; 3],
            vec![false; 3],
            vec![single(0.0); 3],
        );
    }
    let normalizer =
        Normalizer { mean: numbers(&[1.0]), var: numbers(&[4.0]), count: single(1.0) };
    let returned = numbers(&[1.0, 2.0, 3.0, 4.0, 5.0, 6.0]);
    let advantages = numbers(&[-1.0, 1.0, -1.0, 1.0, -1.0, 1.0]);
    let samples =
        Samples::new(&Machine, &rollout, 3, &normalizer, returned.clone(), &advantages);
    for t in 0..2 {
        for b in 0..3 {
            let (i, at) = (3 * t + b, (10 * t + b) as f32);
            assert_eq!(samples.observations[i], numbers(&[(at - 1.0) / (2.0 + 1e-8)]));
            assert_eq!(samples.actions[i], numbers(&[at + 0.25]));
            assert_eq!(samples.log_probabilities[i], single(at + 0.5));
            assert_eq!(samples.old_values[i], single(at + 0.75));
        }
    }
    assert_eq!(samples.returned, returned);
    assert_eq!(samples.advantages, standardize(&Machine, &advantages));
}

/// Networks that value an observation by its first number.
struct First {
    short: bool,
}

impl Policy for First {
    fn forward(&self, observation: &Vec<Vec<Single>>) -> Outlook {
        let mut value: Vec<Single> = observation.iter().map(|row| row[0]).collect();
        if self.short {
            value.pop();
        }
        Outlook { mean: vec![], value }
    }
}

#[test]
fn a_rollout_is_prepared_for_learning() {
    let mut rollout = Rollout::new(2);
    for t in 0..2 {
        let at = |b: usize| (2 * t + b) as f32;
        rollout.push(
            (0..2).map(|b| numbers(&[at(b)])).collect(),
            (0..2).map(|b| numbers(&[at(b)])).collect(),
            (0..2).map(|b| single(at(b))).collect(),
            (0..2).map(|b| single(at(b))).collect(),
            vec![single(1.0); 2],
            vec![false, t == 1],
            vec![false; 2],
            vec![single(0.0); 2],
        );
    }
    let mut config = settings();
    config.environments_count = 2;
    config.rollout_length = 2;
    let seen = rows(&[&[8.0], &[9.0]]);
    let mut normalizer = Normalizer::new(1);
    let samples =
        prepare(&Machine, &First { short: false }, &config, &mut normalizer, &rollout, &seen)
            .unwrap();

    let mut expected = Normalizer::new(1);
    expected.update(&Machine, &join_rows(&rollout.observations));
    assert_eq!(normalizer.mean, expected.mean);
    assert_eq!(normalizer.var, expected.var);
    assert_eq!(normalizer.count, expected.count);
    let ahead: Vec<Single> =
        expected.normalize(&Machine, &seen).iter().map(|row| row[0]).collect();
    let (returned, advantages) = compute_generalized_advantage_estimation(
        &rollout.rewards,
        &rollout.dones,
        &rollout.values,
        &ahead,
        &config,
        &Machine,
    );
    assert_eq!(samples.returned, returned);
    assert_eq!(samples.advantages, standardize(&Machine, &advantages));
    assert_eq!(
        samples.observations,
        expected.normalize(&Machine, &join_rows(&rollout.observations))
    );
    assert_eq!(samples.old_values, numbers(&[0.0, 1.0, 2.0, 3.0]));
    assert!(prepare(
        &Machine,
        &First { short: true },
        &config,
        &mut normalizer,
        &rollout,
        &seen
    )
    .is_none());
}

#[test]
fn lists_are_joined_one_after_the_other() {
    let lists = rows(&[&[1.0, 2.0], &[3.0, 4.0], &[5.0, 6.0]]);
    let joined = join_numbers(&lists);
    for t in 0..3 {
        for b in 0..2 {
            assert_eq!(joined[2 * t + b], lists[t][b]);
        }
    }
    assert_eq!(joined.len(), 6);
    assert_eq!(join_rows(&vec![rows(&[&[1.0]]), rows(&[&[2.0], &[3.0]])]), rows(&[&[1.0], &[2.0], &[3.0]]));
    assert_eq!(join_marks(&vec![vec![true, false], vec![true]]), numbers(&[1.0, 0.0, 1.0]));
    assert!(join_numbers(&vec![]).is_empty());
}

#[test]
fn standardized_numbers_have_no_mean_and_a_deviation_of_one() {
    let standardized = standardize(&Machine, &numbers(&[2.0, 4.0, 4.0, 6.0]));
    let deviation = (8.0f32 / 3.0).sqrt() + 1e-8;
    assert_eq!(standardized, numbers(&[-2.0 / deviation, 0.0, 0.0, 2.0 / deviation]));
    assert_eq!(standardize(&Machine, &numbers(&[3.0, 3.0])), numbers(&[0.0, 0.0]));
    assert!(standardize(&Machine, &numbers(&[3.0]))[0].is_nan());
}

#[test]
fn batches_are_cut_one_after_the_other() {
    let indices: Vec<i64> = vec![4, 0, 3, 1, 2];
    assert_eq!(cut(&indices, 2), vec![vec![4, 0], vec![3, 1], vec![2]]);
    assert_eq!(cut(&indices, 5), vec![vec![4, 0, 3, 1, 2]]);
    assert_eq!(cut(&indices, 9), vec![vec![4, 0, 3, 1, 2]]);
    assert_eq!(cut(&indices, 1).len(), 5);
    assert!(cut(&vec![], 3).is_empty());
}

#[test]
fn a_pass_uses_every_sample_once() {
    let batches = shuffled_minibatches(1000, 64);
    assert_eq!(batches.len(), 16);
    for batch in batches[..15].iter() {
        assert_eq!(batch.len(), 64);
    }
    assert_eq!(batches[15].len(), 40);
    let mut all: Vec<i64> = batches.concat();
    assert_ne!(all, (0..1000).collect::<Vec<i64>>());
    all.sort();
    assert_eq!(all, (0..1000).collect::<Vec<i64>>());
}

#[test]
fn passes_differ() {
    assert_ne!(shuffled_minibatches(1000, 1000), shuffled_minibatches(1000, 1000));
}

#[test]
fn one_sample_makes_one_batch() {
    assert_eq!(shuffled_minibatches(1, 1), vec![vec![0]]);
}

#[test]
fn a_pass_has_as_many_batches_as_set() {
    let mut config = ProximalPolicyOptimizationConfig::new();
    config.environments_count = 5;
    config.rollout_length = 8;
    config.minibatches = 4;
    assert_eq!(shuffled_minibatches(config.number_of_samples(), config.batch_size()).len(), 4);
    config.minibatches = 7;
    assert_eq!(config.batch_size(), 5);
    assert_eq!(shuffled_minibatches(config.number_of_samples(), config.batch_size()).len(), 8);
}

/// Discounts by a half, and advantages by a quarter.
fn settings() -> ProximalPolicyOptimizationConfig {
    let mut config = ProximalPolicyOptimizationConfig::new();
    config.gamma = Single { bits: 0.5f32.to_bits() };
    config.generalized_advantage_estimation_lambda = Single { bits: 0.5f32.to_bits() };
    config
}

#[test]
fn advantages_run_backwards_and_stop_at_the_end_of_an_episode() {
    let rewards = rows(&[&[1.0, 1.0], &[2.0, 2.0], &[4.0, 4.0]]);
    let dones = vec![vec![false, false], vec![false, true], vec![false, false]];
    let values = rows(&[&[10.0, 10.0], &[20.0, 20.0], &[30.0, 30.0]]);
    let next_value = numbers(&[40.0, 40.0]);
    let (returned, advantages) = compute_generalized_advantage_estimation(
        &rewards,
        &dones,
        &values,
        &next_value,
        &settings(),
        &Machine,
    );
    // From the last step: 4 + 20 - 30 = -6; 2 + 15 - 20 - 1.5 = -4.5; 1 + 10 - 10 - 1.125 = -0.125.
    // Where the episode ended: 2 - 20 = -18; 1 + 10 - 10 - 4.5 = -3.5.
    assert_eq!(advantages, numbers(&[-0.125, -3.5, -4.5, -18.0, -6.0, -6.0]));
    assert_eq!(returned, numbers(&[9.875, 6.5, 15.5, 2.0, 24.0, 24.0]));
}

#[test]
fn nothing_leaks_over_the_end_of_an_episode_or_between_environments() {
    let estimate = |late: f32, other: f32| {
        compute_generalized_advantage_estimation(
            &rows(&[&[1.0, other], &[late, other]]),
            &vec![vec![true, false], vec![false, true]],
            &rows(&[&[3.0, other], &[late, other]]),
            &numbers(&[late, other]),
            &settings(),
            &Machine,
        )
        .1
    };
    let (calm, wild) = (estimate(2.0, 5.0), estimate(-77.0, 123.0));
    assert_eq!(calm[0], single(1.0 - 3.0));
    assert_eq!(wild[0], single(1.0 - 3.0));
    assert_eq!(estimate(2.0, 5.0)[2], estimate(2.0, 123.0)[2]);
    assert_ne!(calm[3], estimate(2.0, f32::NAN)[3]);
}

#[test]
fn one_step_has_one_advantage() {
    let (returned, advantages) = compute_generalized_advantage_estimation(
        &rows(&[&[1.0, 2.0]]),
        &vec![vec![false, true]],
        &rows(&[&[3.0, 4.0]]),
        &numbers(&[8.0, 8.0]),
        &settings(),
        &Machine,
    );
    assert_eq!(advantages, numbers(&[2.0, -2.0]));
    assert_eq!(returned, numbers(&[5.0, 2.0]));
}

#[test]
fn the_clock_splits_seconds() {
    assert_eq!(Clock::new(0), Clock { hours: 0, minutes: 0, seconds: 0 });
    assert_eq!(Clock::new(59), Clock { hours: 0, minutes: 0, seconds: 59 });
    assert_eq!(Clock::new(3599), Clock { hours: 0, minutes: 59, seconds: 59 });
    assert_eq!(Clock::new(3600), Clock { hours: 1, minutes: 0, seconds: 0 });
    assert_eq!(Clock::new(360_000 + 125), Clock { hours: 100, minutes: 2, seconds: 5 });
    for elapsed in [7u64, 61, 86399, u64::MAX] {
        let clock = Clock::new(elapsed);
        assert_eq!(
            clock.hours as u128 * 3600 + clock.minutes as u128 * 60 + clock.seconds as u128,
            elapsed as u128
        );
    }
}

#[test]
fn episodes_are_estimated_alone() {
    let estimate = |late: f32| {
        compute_generalized_advantage_estimation(
            &rows(&[&[1.0], &[2.0], &[5.0], &[late], &[late]]),
            &vec![vec![false], vec![false], vec![true], vec![false], vec![false]],
            &rows(&[&[10.0], &[20.0], &[3.0], &[late], &[late]]),
            &numbers(&[late]),
            &settings(),
            &Machine,
        )
    };
    let ((returned, advantages), (other_returned, other_advantages)) =
        (estimate(2.0), estimate(-77.0));
    // From the end: 5 - 3 = 2; 2 + 1.5 - 20 + 0.5 = -16; 1 + 10 - 10 - 4 = -3.
    assert_eq!(advantages[..3], numbers(&[-3.0, -16.0, 2.0]));
    assert_eq!(returned[..3], numbers(&[7.0, 4.0, 5.0]));
    assert_eq!(other_advantages[..3], advantages[..3]);
    assert_eq!(other_returned[..3], returned[..3]);
    assert_ne!(other_advantages[3], advantages[3]);
}

#[test]
fn standardizing_keeps_the_order_and_balances() {
    let list = [3.0f32, -1.0, 0.5, 7.25, 0.5, -4.0];
    let standardized = standardize(&Machine, &numbers(&list));
    for i in 0..list.len() {
        for k in 0..list.len() {
            assert_eq!(list[i] <= list[k], standardized[i].at_most(standardized[k]));
        }
    }
    let balanced = standardize(&Machine, &numbers(&[-3.0, 1.0, 2.0, 0.0]));
    assert!(balanced.iter().map(|x| float(*x)).sum::<f32>().abs() < 1e-6);
}
