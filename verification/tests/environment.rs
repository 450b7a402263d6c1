use walker_rl::arithmetic::Arithmetic;
use walker_rl::decision::{Behavior, Decision, Outlook, Policy};
use walker_rl::env::{Chance, Draws, EnvironmentState, TrainingEnv, TrainingStep};
use walker_rl::model::Normalizer;
use walker_rl::motion::{PhysicsState, Point};
use walker_rl::ppo::ProximalPolicyOptimizationConfig;
use walker_rl::rollout::{collect_rollout, Collector, Rollout};
use walker_rl::single::{Single, ZERO};

fn single(x: f32) -> Single {
    Single { bits: x.to_bits() }
}

fn float(x: Single) -> f32 {
    f32::from_bits(x.bits)
}

/// The arithmetic of the machine, with one pattern for what is not a number.
struct Machine;

fn tidy(x: f32) -> Single {
    single(if x.is_nan() { f32::NAN } else { x })
}

impl Arithmetic for Machine {
    fn sum(&self, a: Single, b: Single) -> Single {
        tidy(float(a) + float(b))
    }

    fn difference(&self, a: Single, b: Single) -> Single {
        tidy(float(a) - float(b))
    }

    fn product(&self, a: Single, b: Single) -> Single {
        tidy(float(a) * float(b))
    }

    fn quotient(&self, a: Single, b: Single) -> Single {
        tidy(float(a) / float(b))
    }

    fn root(&self, a: Single) -> Single {
        tidy(float(a).sqrt())
    }

    fn square(&self, a: Single) -> Single {
        tidy(float(a) * float(a))
    }

    fn cosine(&self, a: Single) -> Single {
        tidy(float(a).cos())
    }

    fn sine(&self, a: Single) -> Single {
        tidy(float(a).sin())
    }

    fn tangent(&self, a: Single) -> Single {
        tidy(float(a).tanh())
    }

    fn exponential(&self, a: Single) -> Single {
        tidy(float(a).exp())
    }

    fn whole(&self, n: usize) -> Single {
        single(n as f32)
    }

    fn total(&self, numbers: &Vec<Single>) -> Single {
        tidy(numbers.iter().fold(0.0, |sum, x| sum + float(*x)))
    }

    fn dot(&self, a: &Vec<Single>, b: &Vec<Single>) -> Single {
        tidy(a.iter().zip(b).fold(0.0, |sum, (x, y)| sum + float(*x) * float(*y)))
    }
}

fn numbers(list: &[f32]) -> Vec<Single> {
    list.iter().map(|x| single(*x)).collect()
}

fn point(x: f32, y: f32) -> Point {
    Point { x: single(x), y: single(y) }
}

fn state(roots: &[f32], times: &[f32]) -> PhysicsState {
    PhysicsState {
        positions: roots.iter().map(|y| vec![point(0.0, *y); 11]).collect(),
        velocities: roots.iter().map(|y| vec![point(*y, -*y); 11]).collect(),
        time: numbers(times),
        target_velocity: numbers(&vec![0.25; roots.len()]),
    }
}

fn environment() -> TrainingEnv {
    TrainingEnv::new(single(10.0), &Machine)
}

#[test]
fn new_environment_has_the_default_walker() {
    let env = environment();
    assert_eq!(env.action_dim(), 9);
    assert_eq!(env.max_time, single(10.0));
    assert_eq!(env.walker.config.fall_y, single(1.3));
    assert_eq!(env.walker.n_particles, 11);
    assert_eq!(env.walker.masses[1], single(22.5));
}

#[test]
fn the_center_of_mass_weighs_the_particles() {
    let env = environment();
    let masses: Vec<f32> = env.walker.masses.iter().map(|m| float(*m)).collect();
    let whole: f32 = masses.iter().sum();
    assert_eq!(whole, 75.0);
    let mut spread = state(&[1.0], &[0.0]);
    spread.positions[0][6] = point(2.0, 5.0);
    let center = env.walker.center_of_mass(&Machine, &spread.positions)[0];
    assert_eq!(center.x, single(2.0 * masses[6] / whole));
    assert!((float(center.y) - (1.0 + 4.0 * masses[6] / whole)).abs() < 1e-6);
    assert_eq!(
        env.walker.center_of_mass(&Machine, &vec![vec![point(3.0, 2.0); 11]; 2]),
        vec![point(3.0, 2.0); 2]
    );
}

#[test]
fn observations_list_places_then_velocities() {
    let env = environment();
    let mut seen = state(&[1.6, 2.0], &[0.0, 0.0]);
    for b in 0..2 {
        for k in 0..11 {
            seen.positions[b][k] = point(8.0, k as f32);
        }
    }
    let observation = env.walker.get_observation(&Machine, &seen);
    for b in 0..2 {
        let height = [1.6, 2.0][b];
        assert_eq!(observation[b].len(), 44);
        for k in 0..11 {
            assert_eq!(observation[b][2 * k], single(0.0));
            assert_eq!(observation[b][2 * k + 1], single(k as f32));
            assert_eq!(observation[b][22 + 2 * k], single(height));
            assert_eq!(observation[b][22 + 2 * k + 1], single(-height));
        }
    }
}

#[test]
fn observations_hide_where_the_walker_stands() {
    let env = environment();
    let seen_from = |x: f32| {
        let mut seen = state(&[1.0], &[0.0]);
        for k in 0..11 {
            seen.positions[0][k] = point(x + if k == 6 { 0.5 } else { 0.0 }, k as f32 / 8.0);
        }
        env.walker.get_observation(&Machine, &seen)
    };
    let (near, far) = (seen_from(0.0), seen_from(16.0));
    for i in 0..44 {
        assert!((float(near[0][i]) - float(far[0][i])).abs() < 1e-5);
    }
    assert_ne!(near[0][12], near[0][0]);
}

#[test]
fn observations_hold_numbers_only() {
    let env = environment();
    let mut seen = state(&[1.0], &[0.0]);
    seen.positions[0][3] = point(0.0, f32::INFINITY);
    seen.positions[0][4] = point(0.0, f32::NAN);
    seen.velocities[0] = vec![point(f32::NAN, 1.0); 11];
    let observation = env.walker.get_observation(&Machine, &seen);
    assert_eq!(observation[0][7], single(f32::INFINITY));
    assert_eq!(observation[0][9], single(0.0));
    assert_eq!(observation[0][22], single(0.0));
    assert_eq!(observation[0][23], single(1.0));
    assert!(observation[0].iter().all(|x| !x.is_nan()));
    seen.positions[0][3] = point(f32::NAN, 1.0);
    let observation = env.walker.get_observation(&Machine, &seen);
    assert_eq!(observation[0][0], single(0.0));
}

/// Draws the same share of every range.
struct Share {
    turn: f32,
    target: f32,
}

impl Chance for Share {
    fn draw(&self, low: Single, high: Single) -> Single {
        let share = if float(low) == 0.0 { self.turn } else { self.target };
        single(float(low) + share * (float(high) - float(low)))
    }
}

#[test]
fn environments_are_reset_upright() {
    let env = environment();
    let (observation, fresh) =
        env.reset(3, &Machine, &Share { turn: 0.5, target: 0.25 }).unwrap();
    assert_eq!(observation.len(), 3);
    assert_eq!(observation, env.walker.get_observation(&Machine, &fresh));
    assert_eq!(fresh.positions.len(), 3);
    for b in 0..3 {
        assert_eq!(observation[b].len(), 44);
        assert_eq!(fresh.positions[b].len(), 11);
        assert_eq!(fresh.positions[b][0], point(0.0, 1.6));
        assert_eq!(fresh.velocities[b], vec![point(0.0, 0.0); 11]);
    }
    assert_eq!(fresh.time, numbers(&[0.0; 3]));
    assert_eq!(fresh.target_velocity, numbers(&[0.0; 3]));
    let (_, fast) = env.reset(1, &Machine, &Share { turn: 0.0, target: 1.0 }).unwrap();
    assert_eq!(fast.target_velocity, numbers(&[1.5]));
    let (_, none) = env.reset(0, &Machine, &Share { turn: 7.0, target: 7.0 }).unwrap();
    assert!(none.positions.is_empty());
}

#[test]
fn draws_outside_their_range_start_nothing() {
    let env = environment();
    assert!(env.reset(2, &Machine, &Share { turn: 1.5, target: 0.5 }).is_none());
    assert!(env.reset(2, &Machine, &Share { turn: -0.5, target: 0.5 }).is_none());
    assert!(env.reset(2, &Machine, &Share { turn: 0.5, target: 1.01 }).is_none());
    assert!(env.reset(2, &Machine, &Share { turn: 0.5, target: -0.01 }).is_none());
    assert!(env.reset(2, &Machine, &Share { turn: f32::NAN, target: 0.5 }).is_none());
}

#[test]
fn given_draws_place_the_walkers() {
    let env = environment();
    let draws = Draws {
        turns: vec![numbers(&[0.5, 0.25]); 10],
        target_velocity: numbers(&[-0.5, 1.5]),
    };
    let placed = env.walker.initial_state(&Machine, 2, &draws.turns);
    let (observation, fresh) = env.begin(2, &Machine, draws);
    assert_eq!(fresh.positions, placed.positions);
    assert_eq!(fresh.target_velocity, numbers(&[-0.5, 1.5]));
    assert_eq!(observation, env.walker.get_observation(&Machine, &fresh));
}

#[test]
fn a_step_is_rewarded_for_its_speed() {
    let env = environment();
    let (_, start) = env.reset(2, &Machine, &Share { turn: 0.5, target: 0.75 }).unwrap();
    let action = vec![numbers(&[0.5; 9]), numbers(&[0.0; 9])];
    let squashed = vec![vec![single(0.5f32.tanh()); 9], numbers(&[0.0; 9])];
    let before = env.walker.center_of_mass(&Machine, &start.positions);
    let expected = env.walker.step(&Machine, start.clone(), &squashed);
    let step = env.step(&Machine, start, &action);
    assert_eq!(step.state.positions, expected.positions);
    assert_eq!(step.state.velocities, expected.velocities);
    let after = env.walker.center_of_mass(&Machine, &expected.positions);
    for b in 0..2 {
        let speed = (float(after[b].x) - float(before[b].x)) / (1.0 / 60.0);
        let miss = (speed - 1.0) * (speed - 1.0);
        let effort = squashed[b].iter().fold(0.0, |sum, x| sum + float(*x) * float(*x));
        assert_eq!(step.reward[b], single((miss * -4.0).exp() + effort * -0.1));
    }
    assert_eq!(step.observation, env.walker.get_observation(&Machine, &step.state));
    assert_eq!(step.done, vec![false, false]);
    assert_eq!(step.is_fallen, vec![false, false]);
}

#[test]
fn episodes_end_by_a_fall_by_time_and_at_the_goal() {
    let env = environment();
    let (_, start) = env.reset(5, &Machine, &Share { turn: 0.5, target: 0.5 }).unwrap();
    let mut start = start;
    for p in start.positions[1].iter_mut() {
        p.y = single(float(p.y) - 0.35);
    }
    start.time[2] = single(9.99);
    for p in start.positions[3].iter_mut() {
        p.x = single(float(p.x) + 20.0);
    }
    start.positions[4][2] = point(f32::NAN, 1.0);
    let step = env.step(&Machine, start, &vec![numbers(&[0.0; 9]); 5]);
    assert_eq!(step.is_fallen, vec![false, true, false, false, false]);
    assert_eq!(step.done, vec![false, true, true, true, false]);
    assert!(step.reward.iter().all(|x| !x.is_nan()));
    assert_eq!(step.reward[4], single(0.0));
    assert!(step.observation[4].iter().all(|x| !x.is_nan()));
    for b in 0..5 {
        assert!(!step.is_fallen[b] || step.done[b]);
    }
}

#[test]
fn states_are_exchanged_where_the_mask_is_set() {
    let mixed = state(&[1.0, 2.0, 3.0], &[0.1, 0.2, 0.3])
        .mask_where(&vec![false, true, false], state(&[4.0, 5.0, 6.0], &[0.4, 0.5, 0.6]));
    assert_eq!(mixed.positions, state(&[1.0, 5.0, 3.0], &[0.0; 3]).positions);
    assert_eq!(mixed.velocities, state(&[1.0, 5.0, 3.0], &[0.0; 3]).velocities);
    assert_eq!(mixed.time, numbers(&[0.1, 0.5, 0.3]));
}

#[test]
fn a_clone_is_the_same_state() {
    let own = state(&[1.0, 2.0], &[0.1, 0.2]);
    let copy = own.clone();
    assert_eq!(copy.positions, own.positions);
    assert_eq!(copy.velocities, own.velocities);
    assert_eq!(copy.time, own.time);
    assert_eq!(copy.target_velocity, own.target_velocity);
}

fn step_of(done: Vec<bool>, is_fallen: Vec<bool>) -> TrainingStep {
    let count = done.len();
    TrainingStep {
        observation: (0..count).map(|b| numbers(&[b as f32])).collect(),
        state: state(&vec![1.6; count], &vec![1.0; count]),
        reward: numbers(&vec![1.0; count]),
        done,
        is_fallen,
    }
}

#[test]
fn a_recorded_step_starts_ended_episodes_afresh() {
    let collector = Collector {
        rollout: Rollout::new(2),
        observation: vec![numbers(&[-1.0]), numbers(&[-2.0])],
        state: state(&[1.5, 1.5], &[0.0, 0.0]),
        current_episode_rewards: numbers(&[5.0, 6.0]),
        rollout_length: 2,
    };
    let collector = collector.record(
        Decision {
            action: vec![numbers(&[0.1]), numbers(&[0.2])],
            log_probability: numbers(&[-0.1, -0.2]),
            value: numbers(&[7.0, 8.0]),
        },
        step_of(vec![true, false], vec![true, false]),
        numbers(&[6.0, 7.0]),
        vec![numbers(&[100.0]), numbers(&[200.0])],
        state(&[9.0, 9.0], &[0.5, 0.5]),
    );
    assert_eq!(collector.observation, vec![numbers(&[100.0]), numbers(&[1.0])]);
    assert_eq!(collector.current_episode_rewards, numbers(&[0.0, 7.0]));
    assert_eq!(collector.state.time, numbers(&[0.5, 1.0]));
    assert_eq!(collector.state.positions[0][0].y, single(9.0));
    assert_eq!(collector.state.positions[1][0].y, single(1.6));
    let rollout = collector.rollout;
    assert_eq!(rollout.observations, vec![vec![numbers(&[-1.0]), numbers(&[-2.0])]]);
    assert_eq!(rollout.actions, vec![vec![numbers(&[0.1]), numbers(&[0.2])]]);
    assert_eq!(rollout.log_probabilities, vec![numbers(&[-0.1, -0.2])]);
    assert_eq!(rollout.values, vec![numbers(&[7.0, 8.0])]);
    assert_eq!(rollout.rewards, vec![numbers(&[1.0, 1.0])]);
    assert_eq!(rollout.dones, vec![vec![true, false]]);
    assert_eq!(rollout.is_fallens, vec![vec![true, false]]);
    assert_eq!(rollout.cumulative_rewards, vec![numbers(&[6.0, 7.0])]);
}

/// Networks that give the height of the head as the mean of every torque and as the value.
struct Heads {
    torques: usize,
}

impl Policy for Heads {
    fn forward(&self, observation: &Vec<Vec<Single>>) -> Outlook {
        Outlook {
            mean: observation.iter().map(|row| vec![row[1]; self.torques]).collect(),
            value: observation.iter().map(|row| row[1]).collect(),
        }
    }
}

fn behavior(steps: usize, count: usize) -> Behavior {
    let mut normalizer = Normalizer::new(44);
    normalizer.mean[1] = single(1.0);
    normalizer.var[1] = single(4.0);
    Behavior {
        normalizer,
        log_standard_deviation: numbers(&[-9.0, 0.0, 9.0, 0.0, 0.0, 0.0, 0.0, 0.0, 0.0]),
        noise: vec![vec![numbers(&[1.0; 9]); count]; steps],
    }
}

#[test]
fn decisions_are_drawn_around_what_the_networks_give() {
    let observation: Vec<Vec<Single>> = [1.6f32, 3.0]
        .iter()
        .map(|head| {
            let mut row = numbers(&[0.0; 44]);
            row[1] = single(*head);
            row
        })
        .collect();
    let decision =
        behavior(1, 2).decide(&Machine, &Heads { torques: 9 }, 0, &observation).unwrap();
    for (b, head) in [1.6f32, 3.0].iter().enumerate() {
        let normalized = (head - 1.0) / (2.0 + 1e-8);
        assert_eq!(decision.value[b], single(normalized));
        // The spread is held between the fifth negative and the second power of e.
        assert_eq!(decision.action[b][0], single(normalized + (-5.0f32).exp()));
        assert_eq!(decision.action[b][1], single(normalized + 1.0));
        assert_eq!(decision.action[b][2], single(normalized + 2.0f32.exp()));
    }
    assert_eq!(decision.log_probability.len(), 2);
    let log_two_pi = (2.0 * std::f64::consts::PI).ln();
    let expected = 9.0 * (-0.5 - 0.5 * log_two_pi) - (-5.0 + 2.0);
    assert!((float(decision.log_probability[0]) as f64 - expected).abs() < 1e-2);
    assert!(behavior(1, 2).decide(&Machine, &Heads { torques: 8 }, 0, &observation).is_none());
}

fn settings(count: usize, length: usize) -> ProximalPolicyOptimizationConfig {
    let mut config = ProximalPolicyOptimizationConfig::new();
    config.environments_count = count;
    config.rollout_length = length;
    config
}

fn collected(metrics: bool, length: usize, torques: usize, chance: &Share) -> Option<Collector> {
    let env = TrainingEnv::new(single(0.05), &Machine);
    let (observation, start) =
        env.reset(2, &Machine, &Share { turn: 0.5, target: 0.5 }).unwrap();
    let mut start = start;
    start.time[1] = single(1.0 / 60.0);
    collect_rollout(
        &Heads { torques },
        &behavior(length, 2),
        &env,
        &Machine,
        chance,
        observation,
        start,
        numbers(&[100.0, 200.0]),
        &settings(2, length),
        metrics,
    )
}

#[test]
fn a_rollout_takes_as_many_steps_as_set() {
    let env = TrainingEnv::new(single(0.05), &Machine);
    let chance = Share { turn: 0.25, target: 0.25 };
    let end = collected(true, 4, 9, &chance).unwrap();
    let rollout = &end.rollout;
    assert_eq!(rollout.observations.len(), 4);
    for t in 0..4 {
        assert_eq!(rollout.observations[t].len(), 2);
        assert_eq!(rollout.observations[t][1].len(), 44);
        assert_eq!(rollout.actions[t].len(), 2);
        assert_eq!(rollout.actions[t][0].len(), 9);
        assert_eq!(rollout.log_probabilities[t].len(), 2);
        assert_eq!(rollout.values[t].len(), 2);
        assert_eq!(rollout.rewards[t].len(), 2);
        assert_eq!(rollout.is_fallens[t].len(), 2);
        assert_eq!(rollout.cumulative_rewards[t].len(), 2);
    }
    // Three steps take the time; the second environment was one step ahead.
    let late: Vec<Vec<bool>> = (0..4)
        .map(|t| vec![rollout.dones[t][0], rollout.dones[t][1]])
        .collect();
    assert!(late[1][1]);
    let mut earned = [100.0f32, 200.0];
    let mut total = 0.0f32;
    let mut episodes = 0;
    let mut fallen = 0;
    for t in 0..4 {
        for b in 0..2 {
            earned[b] += float(rollout.rewards[t][b]);
            assert_eq!(rollout.cumulative_rewards[t][b], single(earned[b]));
            if rollout.dones[t][b] {
                total += earned[b];
                episodes += 1;
                fallen += rollout.is_fallens[t][b] as usize;
                earned[b] = 0.0;
                if t < 3 {
                    assert_eq!(rollout.observations[t + 1][b][1], single(1.6));
                }
            }
        }
    }
    assert!(episodes > 0);
    assert_eq!(rollout.total_episodes, episodes);
    assert_eq!(rollout.total_fallen, fallen);
    assert!((float(rollout.total_reward) - total).abs() < 1e-3);
    assert_eq!(end.current_episode_rewards, numbers(&earned));
    assert_eq!(end.observation, env.walker.get_observation(&Machine, &end.state));
}

#[test]
fn ended_environments_start_afresh() {
    let chance = Share { turn: 0.25, target: 0.25 };
    let end = collected(false, 2, 9, &chance).unwrap();
    assert!(end.rollout.dones[1][1]);
    assert_eq!(end.state.positions[1][0], point(0.0, 1.6));
    assert_eq!(end.state.velocities[1], vec![point(0.0, 0.0); 11]);
    assert_eq!(end.state.time[1], single(0.0));
    assert_eq!(end.state.target_velocity[1], single(0.0));
    assert_eq!(end.current_episode_rewards[1], single(0.0));
}

#[test]
fn totals_are_left_out_where_they_are_not_wanted() {
    let chance = Share { turn: 0.25, target: 0.25 };
    let end = collected(false, 4, 9, &chance).unwrap();
    assert_eq!(end.rollout.total_episodes, 0);
    assert_eq!(end.rollout.dones.len(), 4);
}

#[test]
fn an_empty_rollout_takes_no_step() {
    let end = collected(true, 0, 9, &Share { turn: 0.5, target: 0.5 }).unwrap();
    assert!(end.rollout.dones.is_empty());
    assert_eq!(end.state.time, numbers(&[0.0, 1.0 / 60.0]));
}

#[test]
fn a_decision_for_other_torques_gives_no_rollout() {
    assert!(collected(true, 1, 8, &Share { turn: 0.5, target: 0.5 }).is_none());
}

#[test]
fn a_draw_outside_its_range_gives_no_rollout() {
    assert!(collected(true, 1, 9, &Share { turn: 2.0, target: 0.5 }).is_none());
}

fn masked(dones: Vec<Vec<bool>>, falls: Vec<Vec<bool>>) -> Rollout {
    let mut rollout = Rollout::new(dones.len());
    for (done, fallen) in dones.into_iter().zip(falls.into_iter()) {
        rollout.push(vec![], vec![], vec![], vec![], vec![], done, fallen, vec![]);
    }
    rollout
}

#[test]
fn totals_count_the_finished_episodes() {
    let mut rollout = masked(
        vec![vec![true, false, true], vec![false, true, true]],
        vec![vec![true, true, false], vec![false, false, true]],
    );
    rollout.total_up(single(12.5));
    assert_eq!(rollout.total_episodes, 4);
    assert_eq!(rollout.total_fallen, 2);
    assert_eq!(rollout.total_reward, single(12.5));
    assert!(rollout.total_fallen <= rollout.total_episodes);
    let finished = rollout.finished().unwrap();
    assert_eq!((finished.count, finished.fallen, finished.reward), (4, 2, single(12.5)));
}

#[test]
fn without_a_finished_episode_there_are_no_totals() {
    let mut rollout = masked(vec![vec![false, false]], vec![vec![true, true]]);
    rollout.total_up(single(12.5));
    assert_eq!(rollout.total_episodes, 0);
    assert_eq!(rollout.total_fallen, 0);
    assert_eq!(rollout.total_reward.bits, ZERO);
    assert!(rollout.finished().is_none());
}

#[test]
fn a_new_rollout_is_empty() {
    let rollout = Rollout::new(128);
    assert!(rollout.observations.is_empty());
    assert!(rollout.cumulative_rewards.is_empty());
    assert_eq!(rollout.total_reward, single(0.0));
    assert!(rollout.finished().is_none());
}

#[test]
fn observations_hide_time_and_target() {
    let env = environment();
    let seen = state(&[1.0, 2.0], &[0.0, 0.0]);
    let mut other = state(&[2.0, 1.0], &[7.0, 9.0]);
    other.target_velocity = vec![single(-3.0), single(0.25)];
    let observation = env.walker.get_observation(&Machine, &seen);
    let other_observation = env.walker.get_observation(&Machine, &other);
    assert_eq!(observation[0], other_observation[1]);
    assert_eq!(observation[1], other_observation[0]);
    assert_ne!(observation[0], observation[1]);
}
