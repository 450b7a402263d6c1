use walker_rl::arithmetic::Arithmetic;
use walker_rl::distribution::DiagonalGaussian;
use walker_rl::model::{ActorCritic, Agent, Layer, Layers, MultiLayerPerceptron, Normalizer};
use walker_rl::motion::Point;
use walker_rl::physics::WalkerConfig;
use walker_rl::single::Single;
use walker_rl::viz::target_velocity;
use walker_rl::walker::Walker;

fn single(x: f32) -> Single {
    Single { bits: x.to_bits() }
}

fn float(x: Single) -> f32 {
    f32::from_bits(x.bits)
}

/// The arithmetic of the machine, with one pattern for what is not a number.
struct Machine;

fn tidy(x: f32) -> Single {
    single(if x.is_nan() { f32::NAN } else { x })
}

impl Arithmetic for Machine {
    fn sum(&self, a: Single, b: Single) -> Single {
        tidy(float(a) + float(b))
    }

    fn difference(&self, a: Single, b: Single) -> Single {
        tidy(float(a) - float(b))
    }

    fn product(&self, a: Single, b: Single) -> Single {
        tidy(float(a) * float(b))
    }

    fn quotient(&self, a: Single, b: Single) -> Single {
        tidy(float(a) / float(b))
    }

    fn root(&self, a: Single) -> Single {
        tidy(float(a).sqrt())
    }

    fn square(&self, a: Single) -> Single {
        tidy(float(a) * float(a))
    }

    fn cosine(&self, a: Single) -> Single {
        tidy(float(a).cos())
    }

    fn sine(&self, a: Single) -> Single {
        tidy(float(a).sin())
    }

    fn tangent(&self, a: Single) -> Single {
        tidy(float(a).tanh())
    }

    fn exponential(&self, a: Single) -> Single {
        tidy(float(a).exp())
    }

    fn whole(&self, n: usize) -> Single {
        single(n as f32)
    }

    fn total(&self, numbers: &Vec<Single>) -> Single {
        tidy(numbers.iter().fold(0.0, |sum, x| sum + float(*x)))
    }

    fn dot(&self, a: &Vec<Single>, b: &Vec<Single>) -> Single {
        tidy(a.iter().zip(b).fold(0.0, |sum, (x, y)| sum + float(*x) * float(*y)))
    }
}

fn numbers(list: &[f32]) -> Vec<Single> {
    list.iter().map(|x| single(*x)).collect()
}

fn point(x: f32, y: f32) -> Point {
    Point { x: single(x), y: single(y) }
}

#[test]
fn layers_chain_through_the_hidden_width() {
    let network = MultiLayerPerceptron::new(44, 9, 128);
    assert_eq!(network.layer_1, Layer { input: 44, output: 128 });
    assert_eq!(network.layer_2, Layer { input: 128, output: 128 });
    assert_eq!(network.layer_3, Layer { input: 128, output: 9 });
}

#[test]
fn an_agent_fits_its_dimensions() {
    let agent = Agent::new(44, 9);
    assert_eq!(agent.model.actor, MultiLayerPerceptron::new(44, 9, 128));
    assert_eq!(agent.model.critic, MultiLayerPerceptron::new(44, 1, 128));
    assert_eq!(agent.model.log_standard_deviation, vec![single(0.0); 9]);
    assert_eq!(agent.normalizer.mean, vec![single(0.0); 44]);
    assert_eq!(agent.normalizer.var, vec![single(1.0); 44]);
    assert_eq!(agent.normalizer.count, single(1e-4));
    assert_eq!(agent.model.actor.layer_1.output, agent.model.actor.layer_2.input);
    assert_eq!(agent.model.critic.layer_2.output, agent.model.critic.layer_3.input);
}

#[test]
fn parts_of_an_agent_can_be_made_alone() {
    let model = ActorCritic::new(3, 2);
    assert_eq!(model.actor.layer_1, Layer { input: 3, output: 128 });
    assert_eq!(model.log_standard_deviation.len(), 2);
    let normalizer = Normalizer::new(3);
    assert_eq!(normalizer.mean.len(), 3);
    assert_eq!(normalizer.var.len(), 3);
}

struct Written {
    name: &'static str,
}

impl Layers for Written {
    type Batch = String;

    fn layer_1(&self, x: &String) -> String {
        format!("{}1({})", self.name, x)
    }

    fn layer_2(&self, x: &String) -> String {
        format!("{}2({})", self.name, x)
    }

    fn layer_3(&self, x: &String) -> String {
        format!("{}3({})", self.name, x)
    }

    fn tanh(&self, x: &String) -> String {
        format!("t({})", x)
    }
}

#[test]
fn networks_are_applied_layer_by_layer() {
    let x = "x".to_string();
    assert_eq!(
        MultiLayerPerceptron::forward(&Written { name: "n" }, &x),
        "n3(t(n2(t(n1(x)))))"
    );
    let (mean, spread, value) =
        ActorCritic::forward(&Written { name: "a" }, &Written { name: "c" }, 7, &x);
    assert_eq!(mean, "a3(t(a2(t(a1(x)))))");
    assert_eq!(spread, 7);
    assert_eq!(value, "c3(t(c2(t(c1(x)))))");
}

#[test]
fn keys_steer_the_walker() {
    assert_eq!(target_velocity(true, false), single(1.5));
    assert_eq!(target_velocity(true, true), single(1.5));
    assert_eq!(target_velocity(false, true), single(-0.5));
    assert_eq!(target_velocity(false, false), single(0.0));
}

#[test]
fn without_a_policy_the_walker_is_not_driven() {
    let walker = Walker::new(WalkerConfig::default(), &Machine);
    assert_eq!(walker.driven_by(None), vec![single(0.0); 9]);
    assert_eq!(walker.driven_by(Some(vec![single(2.0); 9])), vec![single(2.0); 9]);
}

#[test]
fn a_scene_shows_edges_and_vertices() {
    let walker = Walker::new(WalkerConfig::default(), &Machine);
    let coordinates: Vec<Single> = (0..22).map(|i| single(i as f32)).collect();
    let scene = walker.scene(&coordinates);
    assert_eq!(scene.edges.len(), 10);
    assert_eq!(scene.edges[0], (point(0.0, 1.0), point(2.0, 3.0)));
    assert_eq!(scene.edges[5], (point(2.0, 3.0), point(12.0, 13.0)));
    assert_eq!(scene.vertices.len(), 11);
    assert_eq!(scene.vertices[10], point(20.0, 21.0));
    assert_eq!(scene.root, point(0.0, 1.0));
    assert!(scene.fallen);
}

#[test]
fn a_walker_is_shown_as_fallen_below_the_height_of_a_fall() {
    let walker = Walker::new(WalkerConfig::default(), &Machine);
    let at = |height: f32| {
        let mut coordinates = vec![single(0.0); 22];
        coordinates[1] = single(height);
        walker.scene(&coordinates).fallen
    };
    assert!(at(1.2999998));
    assert!(!at(1.3));
    assert!(!at(1.6));
    assert!(!at(f32::NAN));
}

#[test]
fn observations_are_normalized_column_by_column() {
    let normalizer = Normalizer {
        mean: numbers(&[1.0, -2.0]),
        var: numbers(&[4.0, 0.25]),
        count: single(10.0),
    };
    let rows = vec![numbers(&[5.0, -2.0]), numbers(&[1.0, 0.0])];
    let normalized = normalizer.normalize(&Machine, &rows);
    let by = |x: f32, mean: f32, var: f32| (x - mean) / (var.sqrt() + 1e-8);
    assert_eq!(normalized[0], numbers(&[by(5.0, 1.0, 4.0), by(-2.0, -2.0, 0.25)]));
    assert_eq!(normalized[1], numbers(&[by(1.0, 1.0, 4.0), by(0.0, -2.0, 0.25)]));
    let untouched = Normalizer::new(2).normalize(&Machine, &rows);
    assert_eq!(untouched, rows);
}

#[test]
fn statistics_follow_the_batches() {
    let mut normalizer =
        Normalizer { mean: numbers(&[0.0]), var: numbers(&[1.0]), count: single(4.0) };
    let rows = vec![numbers(&[2.0]), numbers(&[4.0]), numbers(&[4.0]), numbers(&[6.0])];
    normalizer.update(&Machine, &rows);
    // The batch has mean 4 and variance 8 / 3; both halves weigh the same.
    assert_eq!(normalizer.count, single(8.0));
    assert_eq!(normalizer.mean, numbers(&[2.0]));
    let m_2 = 4.0f32 + (8.0f32 / 3.0) * 4.0 + 16.0 * (16.0 / 8.0);
    assert_eq!(normalizer.var, numbers(&[m_2 / 8.0]));
}

#[test]
fn statistics_of_many_batches_come_close_to_those_of_all() {
    let sample = |i: usize| ((i * 37 % 101) as f32 - 50.0) / 10.0;
    let mut normalizer = Normalizer::new(1);
    for batch in 0..20 {
        let rows: Vec<Vec<Single>> =
            (0..50).map(|i| numbers(&[sample(50 * batch + i)])).collect();
        normalizer.update(&Machine, &rows);
    }
    let all: Vec<f64> = (0..1000).map(|i| sample(i) as f64).collect();
    let mean = all.iter().sum::<f64>() / 1000.0;
    let var = all.iter().map(|x| (x - mean) * (x - mean)).sum::<f64>() / 1000.0;
    assert!((float(normalizer.mean[0]) as f64 - mean).abs() < 1e-3);
    assert!((float(normalizer.var[0]) as f64 / var - 1.0).abs() < 0.03);
    assert!((float(normalizer.count) - 1000.0).abs() < 1e-2);
}

#[test]
fn actions_are_drawn_around_their_means() {
    let spread = 0.5f32;
    let gaussian = DiagonalGaussian::new(
        vec![numbers(&[1.0, -1.0]), numbers(&[0.0, 3.0])],
        numbers(&[0.0, spread.ln()]),
    );
    let noise = vec![numbers(&[0.25, -2.0]), numbers(&[0.0, 1.0])];
    let action = gaussian.sample(&Machine, &noise);
    let deviation = spread.ln().exp();
    assert_eq!(action[0], numbers(&[1.25, -1.0 - 2.0 * deviation]));
    assert_eq!(action[1], numbers(&[0.0, 3.0 + deviation]));
}

#[test]
fn probabilities_are_those_of_normal_distributions() {
    let (mean, deviation) = ([1.0f32, -1.0], [1.0f32, 0.5]);
    let gaussian = DiagonalGaussian::new(
        vec![numbers(&mean)],
        numbers(&[deviation[0].ln(), deviation[1].ln()]),
    );
    let action = [1.5f32, -2.0];
    let found = gaussian.log_probability(&Machine, &vec![numbers(&action)]);
    assert_eq!(found.len(), 1);
    let expected: f64 = (0..2)
        .map(|j| {
            let z = (action[j] as f64 - mean[j] as f64) / deviation[j] as f64;
            -0.5 * z * z - (deviation[j] as f64).ln() - 0.5 * (2.0 * std::f64::consts::PI).ln()
        })
        .sum();
    assert!((float(found[0]) as f64 - expected).abs() < 1e-5);
    let entropy: f64 = (0..2)
        .map(|j| {
            0.5 * (2.0 * std::f64::consts::PI).ln() + 0.5 + (deviation[j] as f64).ln()
        })
        .sum::<f64>()
        / 2.0;
    assert!((float(gaussian.entropy(&Machine)) as f64 - entropy).abs() < 1e-5);
}

fn after(normalizer: &Normalizer, batches: &[&[f32]]) -> Normalizer {
    let mut normalizer = Normalizer {
        mean: normalizer.mean.clone(),
        var: normalizer.var.clone(),
        count: normalizer.count,
    };
    for batch in batches {
        let rows: Vec<Vec<Single>> = batch.iter().map(|x| numbers(&[*x])).collect();
        normalizer.update(&Machine, &rows);
    }
    normalizer
}

#[test]
fn batches_may_come_in_any_order() {
    let start = Normalizer { mean: numbers(&[1.0]), var: numbers(&[8.0]), count: single(4.0) };
    let (one, other) = ([3.0f32, 5.0], [3.0f32, 2.0]);
    let first = after(&start, &[&one]);
    // The batch has mean 4 and variance 2: (8 * 4 + 2 * 2 + 9 * 8 / 6) / 6 = 8.
    assert_eq!(first.count, single(6.0));
    assert_eq!(first.mean, numbers(&[2.0]));
    assert_eq!(first.var, numbers(&[8.0]));
    let (there, back) = (after(&start, &[&one, &other]), after(&start, &[&other, &one]));
    assert_eq!(there.count, single(8.0));
    assert_eq!(there.mean, numbers(&[2.125]));
    assert_eq!(there.var, numbers(&[6.171875]));
    assert_eq!(back.count, there.count);
    assert_eq!(back.mean, there.mean);
    assert_eq!(back.var, there.var);
    let all = after(&start, &[&[3.0, 5.0, 3.0, 2.0]]);
    assert_eq!(all.count, there.count);
    assert_eq!(all.mean, there.mean);
}

#[test]
fn normalized_rows_can_be_recovered() {
    let normalizer = Normalizer {
        mean: numbers(&[1.0, -2.0]),
        var: numbers(&[4.0, 0.25]),
        count: single(10.0),
    };
    let rows = vec![numbers(&[5.0, -2.0]), numbers(&[-3.0, 0.0]), numbers(&[5.5, 0.25])];
    let normalized = normalizer.normalize(&Machine, &rows);
    let deviations = [4.0f32.sqrt() + 1e-8, 0.25f32.sqrt() + 1e-8];
    for (row, found) in rows.iter().zip(&normalized) {
        for j in 0..2 {
            let recovered = float(found[j]) * deviations[j] + float(normalizer.mean[j]);
            assert_eq!(recovered, float(row[j]));
        }
    }
    assert_eq!(normalized[0][1], single(0.0));
    assert!(normalized[1][0].less_than(normalized[0][0]));
    assert!(normalized[0][0].less_than(normalized[2][0]));
    assert!(normalized[0][1].less_than(normalized[1][1]));
}

#[test]
fn samples_are_as_likely_as_their_noise() {
    let spreads = [0.0f32, 0.0];
    let noise = vec![numbers(&[0.5, -1.25])];
    let likely = |mean: &[f32]| {
        let gaussian = DiagonalGaussian::new(vec![numbers(mean)], numbers(&spreads));
        let action = gaussian.sample(&Machine, &noise);
        gaussian.log_probability(&Machine, &action)[0]
    };
    assert_eq!(likely(&[1.0, -1.0]), likely(&[-3.0, 64.0]));
    let expected = -0.5 * (0.25 + 1.5625) - (2.0 * std::f64::consts::PI).ln();
    assert!((float(likely(&[1.0, -1.0])) as f64 - expected).abs() < 1e-6);
}

#[test]
fn mirrored_actions_are_as_likely_and_the_means_likeliest() {
    let gaussian = DiagonalGaussian::new(vec![numbers(&[1.0, -2.0])], numbers(&[0.75, -0.5]));
    let likely = |action: &[f32]| gaussian.log_probability(&Machine, &vec![numbers(action)])[0];
    assert_eq!(likely(&[1.75, -2.5]), likely(&[0.25, -1.5]));
    assert_eq!(likely(&[1.75, -2.5]), likely(&[1.75, -1.5]));
    assert_ne!(likely(&[1.75, -2.5]), likely(&[-0.25, -1.5]));
    for action in [[1.75, -2.5], [1.0, -3.0], [9.0, -2.0], [-7.0, 7.0]] {
        assert!(likely(&action).less_than(likely(&[1.0, -2.0])));
    }
    assert!(likely(&[3.0, -2.5]).less_than(likely(&[2.0, -2.25])));
}
