use walker_rl::arithmetic::Arithmetic;
use walker_rl::incidence::incidence;
use walker_rl::layout::lay_edges;
use walker_rl::morphology;
use walker_rl::physics::{Morphology, Segment, WalkerConfig};
use walker_rl::single::{Single, MINUS_ONE, MINUS_ZERO, ONE, ZERO};
use walker_rl::walker::Walker;

fn single(x: f32) -> Single {
    Single { bits: x.to_bits() }
}

fn float(x: Single) -> f32 {
    f32::from_bits(x.bits)
}

/// The arithmetic of the machine, with one pattern for what is not a number.
struct Machine;

fn tidy(x: f32) -> Single {
    single(if x.is_nan() { f32::NAN } else { x })
}

impl Arithmetic for Machine {
    fn sum(&self, a: Single, b: Single) -> Single {
        tidy(float(a) + float(b))
    }

    fn difference(&self, a: Single, b: Single) -> Single {
        tidy(float(a) - float(b))
    }

    fn product(&self, a: Single, b: Single) -> Single {
        tidy(float(a) * float(b))
    }

    fn quotient(&self, a: Single, b: Single) -> Single {
        tidy(float(a) / float(b))
    }

    fn root(&self, a: Single) -> Single {
        tidy(float(a).sqrt())
    }

    fn square(&self, a: Single) -> Single {
        tidy(float(a) * float(a))
    }

    fn cosine(&self, a: Single) -> Single {
        tidy(float(a).cos())
    }

    fn sine(&self, a: Single) -> Single {
        tidy(float(a).sin())
    }

    fn tangent(&self, a: Single) -> Single {
        tidy(float(a).tanh())
    }

    fn exponential(&self, a: Single) -> Single {
        tidy(float(a).exp())
    }

    fn whole(&self, n: usize) -> Single {
        single(n as f32)
    }

    fn total(&self, numbers: &Vec<Single>) -> Single {
        tidy(numbers.iter().fold(0.0, |sum, x| sum + float(*x)))
    }

    fn dot(&self, a: &Vec<Single>, b: &Vec<Single>) -> Single {
        tidy(a.iter().zip(b).fold(0.0, |sum, (x, y)| sum + float(*x) * float(*y)))
    }
}

fn numbers(list: &[f32]) -> Vec<Single> {
    list.iter().map(|x| single(*x)).collect()
}

fn segment(length: f32, children: Vec<Segment>) -> Segment {
    Segment {
        length: single(length),
        mass: single(2.0 * length),
        angle_min: single(-length),
        angle_max: single(length),
        max_torque: single(10.0 * length),
        children,
    }
}

fn config(root: Segment) -> WalkerConfig {
    WalkerConfig {
        gravity: single(9.8),
        morphology: Morphology { root },
        time_step: single(0.1),
        friction: single(1.0),
        fall_y: single(1.0),
        constraint_iterations: 2,
    }
}

#[test]
fn humanoid_has_its_measures() {
    let head = Morphology::humanoid().root;
    assert_eq!(head.length, single(0.2));
    assert_eq!(head.mass, single(5.0));
    assert_eq!(head.angle_min, single(0.0));
    assert_eq!(head.angle_max, single(0.0));
    assert_eq!(head.max_torque, single(0.0));
    assert_eq!(head.children.len(), 3);
    let torso = &head.children[0];
    assert_eq!(
        (torso.length, torso.mass, torso.angle_min, torso.angle_max, torso.max_torque),
        (single(0.6), single(35.0), single(-0.1), single(0.8), single(150.0))
    );
    assert_eq!(torso.children.len(), 2);
    for leg in torso.children.iter() {
        assert_eq!(
            (leg.length, leg.mass, leg.angle_min, leg.angle_max, leg.max_torque),
            (single(0.4), single(10.0), single(-0.7), single(1.4), single(120.0))
        );
        assert_eq!(leg.children.len(), 1);
        let shank = &leg.children[0];
        assert_eq!(
            (shank.length, shank.mass, shank.angle_min, shank.angle_max, shank.max_torque),
            (single(0.4), single(3.5), single(-2.3), single(0.0), single(80.0))
        );
        assert!(shank.children.is_empty());
    }
    for arm in head.children[1..].iter() {
        assert_eq!(
            (arm.length, arm.mass, arm.angle_min, arm.angle_max, arm.max_torque),
            (single(0.3), single(2.5), single(-1.2), single(1.2), single(20.0))
        );
        assert_eq!(arm.children.len(), 1);
        let forearm = &arm.children[0];
        assert_eq!(
            (forearm.length, forearm.mass, forearm.angle_min, forearm.angle_max, forearm.max_torque),
            (single(0.3), single(1.5), single(0.0), single(2.2), single(10.0))
        );
        assert!(forearm.children.is_empty());
    }
}

fn agree(jointed: &morphology::Segment, hung: &Segment) {
    assert_eq!(jointed.length, hung.length);
    assert_eq!(jointed.mass, hung.mass);
    assert_eq!(jointed.joints.len(), hung.children.len());
    for (joint, child) in jointed.joints.iter().zip(hung.children.iter()) {
        assert_eq!(joint.angle_min, child.angle_min);
        assert_eq!(joint.angle_max, child.angle_max);
        assert_eq!(joint.max_torque, child.max_torque);
        agree(&joint.child, child);
    }
}

#[test]
fn both_humanoids_agree() {
    agree(&morphology::Morphology::humanoid().root, &Morphology::humanoid().root);
}

#[test]
fn a_clone_is_the_same_body() {
    let (hung, jointed) = (Morphology::humanoid(), morphology::Morphology::humanoid());
    agree(&jointed.clone().root, &hung.root);
    agree(&jointed.root, &hung.clone().root);
    assert_eq!(format!("{:?}", hung.clone()), format!("{:?}", hung));
}

#[test]
fn default_config_has_its_values() {
    let config = WalkerConfig::default();
    assert_eq!(config.gravity, single(9.8));
    assert_eq!(config.time_step, single(1.0 / 60.0));
    assert_eq!(config.friction, single(1.0));
    assert_eq!(config.fall_y, single(1.3));
    assert_eq!(config.constraint_iterations, 4);
    assert_eq!(config.morphology.root.children.len(), 3);
}

#[test]
fn the_last_child_is_laid_first() {
    let root = segment(1.0, vec![segment(2.0, vec![segment(3.0, vec![])]), segment(4.0, vec![])]);
    let layout = lay_edges(&root);
    assert_eq!(layout.lengths, numbers(&[1.0, 4.0, 2.0, 3.0]));
    assert_eq!(layout.starts, vec![0, 1, 1, 3]);
    assert_eq!(layout.parents, vec![None, Some(0), Some(0), Some(2)]);
    assert_eq!(layout.masses, numbers(&[2.0, 8.0, 4.0, 6.0]));
    assert_eq!(layout.angle_min, numbers(&[-1.0, -4.0, -2.0, -3.0]));
    assert_eq!(layout.angle_max, numbers(&[1.0, 4.0, 2.0, 3.0]));
    assert_eq!(layout.max_torques, numbers(&[10.0, 40.0, 20.0, 30.0]));
}

#[test]
fn small_walker_is_laid_out() {
    let root = segment(1.0, vec![segment(2.0, vec![segment(3.0, vec![])]), segment(4.0, vec![])]);
    let walker = Walker::new(config(root), &Machine);
    assert_eq!(walker.n_particles, 5);
    assert_eq!(
        walker.edges,
        vec![(0, 1, single(1.0)), (1, 2, single(4.0)), (1, 3, single(2.0)), (3, 4, single(3.0))]
    );
    assert_eq!(walker.joint_pairs, vec![(0, 1, 2), (0, 1, 3), (1, 3, 4)]);
    assert_eq!(walker.edge_idx_1, vec![0, 1, 1, 3]);
    assert_eq!(walker.edge_idx_2, vec![1, 2, 3, 4]);
    assert_eq!(walker.edge_lengths, numbers(&[1.0, 4.0, 2.0, 3.0]));
    assert_eq!(walker.joint_idx_p, vec![0, 0, 1]);
    assert_eq!(walker.joint_idx_j, vec![1, 1, 3]);
    assert_eq!(walker.joint_idx_c, vec![2, 3, 4]);
    assert_eq!(walker.joint_parent_lengths, numbers(&[1.0, 1.0, 2.0]));
    assert_eq!(walker.joint_child_lengths, numbers(&[4.0, 2.0, 3.0]));
    assert_eq!(walker.joint_max_torques, numbers(&[40.0, 20.0, 30.0]));
    assert_eq!(walker.joint_angle_min, numbers(&[-4.0, -2.0, -3.0]));
    assert_eq!(walker.joint_angle_max, numbers(&[4.0, 2.0, 3.0]));
    assert_eq!(walker.init_p1, vec![0, 1, 1, 3]);
    assert_eq!(walker.init_p2, vec![1, 2, 3, 4]);
    assert_eq!(walker.init_lengths, numbers(&[1.0, 4.0, 2.0, 3.0]));
    assert_eq!(walker.init_angle_min, numbers(&[-1.0, -4.0, -2.0, -3.0]));
    assert_eq!(walker.init_angle_max, numbers(&[1.0, 4.0, 2.0, 3.0]));
    assert_eq!(walker.init_parent_edge, vec![None, Some(0), Some(0), Some(2)]);
    assert_eq!(walker.init_eff_min, numbers(&[-0.8, -4.0, -2.0, -3.0]));
    assert_eq!(walker.init_eff_max, numbers(&[0.0, 4.0, 2.0, 3.0]));
    assert_eq!(
        walker.mass_shares,
        vec![
            numbers(&[2.0]),
            numbers(&[2.0, 8.0, 4.0]),
            numbers(&[8.0]),
            numbers(&[4.0, 6.0]),
            numbers(&[6.0]),
        ]
    );
    assert_eq!(walker.action_dim(), 3);
}

#[test]
fn small_walker_has_its_maps() {
    let walker = Walker::new(config(segment(1.0, vec![segment(2.0, vec![])])), &Machine);
    let (o, i, n, m) = (ZERO, ONE, MINUS_ZERO, MINUS_ONE);
    let bits: Vec<u32> = walker.edge_map_combined.iter().map(|x| x.bits).collect();
    assert_eq!(bits, vec![i, o, n, n, o, i, m, n, o, o, n, m]);
    let bits: Vec<u32> = walker.joint_map_combined.iter().map(|x| x.bits).collect();
    assert_eq!(bits, vec![i, o, o, o, i, o, o, o, i]);
}

#[test]
fn a_single_segment_has_no_joint() {
    let walker = Walker::new(config(segment(1.0, vec![])), &Machine);
    assert_eq!(walker.n_particles, 2);
    assert_eq!(walker.action_dim(), 0);
    assert!(walker.joint_map_combined.is_empty());
    assert_eq!(walker.limit_angles(&vec![]), vec![]);
}

#[test]
fn default_walker_is_the_humanoid() {
    let walker = Walker::new(WalkerConfig::default(), &Machine);
    assert_eq!(walker.n_particles, 11);
    assert_eq!(walker.action_dim(), 9);
    assert_eq!(
        walker.edges.iter().map(|e| (e.0, e.1)).collect::<Vec<_>>(),
        vec![(0, 1), (1, 2), (2, 3), (1, 4), (4, 5), (1, 6), (6, 7), (7, 8), (6, 9), (9, 10)]
    );
    assert_eq!(
        walker.edge_lengths,
        numbers(&[0.2, 0.3, 0.3, 0.3, 0.3, 0.6, 0.4, 0.4, 0.4, 0.4])
    );
    assert_eq!(
        walker.joint_max_torques,
        numbers(&[20.0, 10.0, 20.0, 10.0, 150.0, 120.0, 80.0, 120.0, 80.0])
    );
}

#[test]
fn every_particle_but_the_first_ends_one_edge() {
    let walker = Walker::new(WalkerConfig::default(), &Machine);
    for particle in 1..walker.n_particles {
        let ends: Vec<usize> =
            (0..walker.edges.len()).filter(|i| walker.edges[*i].1 == particle).collect();
        assert_eq!(ends, vec![particle - 1]);
        assert!(walker.edges[particle - 1].0 < particle);
    }
}

#[test]
fn edges_hang_on_the_ends_of_their_parents() {
    let walker = Walker::new(WalkerConfig::default(), &Machine);
    for edge in 0..walker.edges.len() {
        match walker.init_parent_edge[edge] {
            None => assert_eq!(edge, 0),
            Some(parent) => {
                assert!(parent < edge);
                assert_eq!(walker.edges[parent].1, walker.edges[edge].0);
            }
        }
    }
}

#[test]
fn joints_lie_between_a_parent_and_a_child() {
    let walker = Walker::new(WalkerConfig::default(), &Machine);
    for joint in 0..walker.action_dim() {
        let (p, j, c) = walker.joint_pairs[joint];
        let parent = walker.init_parent_edge[joint + 1].unwrap();
        assert_eq!((walker.edges[parent].0, walker.edges[parent].1), (p, j));
        assert_eq!((walker.edges[joint + 1].0, walker.edges[joint + 1].1), (j, c));
    }
}

#[test]
fn every_segment_shares_its_mass_twice() {
    let walker = Walker::new(WalkerConfig::default(), &Machine);
    let shares: usize = walker.mass_shares.iter().map(|s| s.len()).sum();
    assert_eq!(shares, 2 * walker.edges.len());
    let total: f32 =
        walker.mass_shares.iter().flatten().map(|m| 0.5 * f32::from_bits(m.bits)).sum();
    assert_eq!(total, 5.0 + 35.0 + 2.0 * 13.5 + 2.0 * 4.0);
}

fn spread(map: &Vec<Single>, rows: usize, amounts: &Vec<f32>) -> Vec<f32> {
    (0..rows)
        .map(|row| {
            (0..amounts.len())
                .map(|c| f32::from_bits(map[row * amounts.len() + c].bits) * amounts[c])
                .sum()
        })
        .collect()
}

#[test]
fn joint_forces_add_up_to_nothing() {
    let walker = Walker::new(WalkerConfig::default(), &Machine);
    let n = walker.action_dim();
    let parents: Vec<f32> = (0..n).map(|j| j as f32 - 3.0).collect();
    let children: Vec<f32> = (0..n).map(|j| 2.0 * j as f32 + 1.0).collect();
    let mut forces = parents.clone();
    forces.extend((0..n).map(|j| -(parents[j] + children[j])));
    forces.extend(children);
    let spread = spread(&walker.joint_map_combined, walker.n_particles, &forces);
    assert_eq!(spread.iter().sum::<f32>(), 0.0);
    assert!(spread.iter().any(|x| *x != 0.0));
}

#[test]
fn a_map_adds_each_amount_to_its_row() {
    let map = incidence(3, &vec![2, 0, 2], 2);
    assert_eq!(map.len(), 9);
    assert_eq!(spread(&map, 3, &vec![1.0, 10.0, 100.0]), vec![10.0, 0.0, 1.0 - 100.0]);
}

#[test]
fn particles_weigh_half_of_their_segments() {
    let walker = Walker::new(WalkerConfig::default(), &Machine);
    assert_eq!(
        walker.masses,
        numbers(&[2.5, 22.5, 2.0, 0.75, 2.0, 0.75, 27.5, 6.75, 1.75, 6.75, 1.75])
    );
    for k in 0..11 {
        assert_eq!(walker.inv_masses[k], single(1.0 / float(walker.masses[k])));
    }
    for i in 0..10 {
        let (p1, p2, _) = walker.edges[i];
        assert_eq!(walker.edge_w1[i], walker.inv_masses[p1]);
        assert_eq!(walker.edge_w2[i], walker.inv_masses[p2]);
        let both = float(walker.inv_masses[p1]) + float(walker.inv_masses[p2]);
        assert_eq!(walker.edge_w_sum[i], single(both));
    }
    for j in 0..9 {
        let (p, q, c) = walker.joint_pairs[j];
        assert_eq!(walker.joint_w_p[j], walker.inv_masses[p]);
        assert_eq!(walker.joint_w_j[j], walker.inv_masses[q]);
        assert_eq!(walker.joint_w_c[j], walker.inv_masses[c]);
    }
}

#[test]
fn particles_without_mass_are_kept_in_place() {
    let mut root = segment(1.0, vec![segment(2.0, vec![])]);
    root.children[0].mass = single(-0.0);
    let walker = Walker::new(config(root), &Machine);
    assert_eq!(walker.masses[0], single(1.0));
    assert_eq!(walker.inv_masses, numbers(&[1.0, 1.0, 0.0]));

    let mut weightless = segment(1.0, vec![segment(2.0, vec![])]);
    weightless.mass = single(-2.0);
    weightless.children[0].mass = single(f32::NAN);
    let walker = Walker::new(config(weightless), &Machine);
    assert_eq!(walker.inv_masses, numbers(&[0.0, 0.0, 0.0]));
    assert_eq!(walker.edge_w1, numbers(&[0.0, 0.0]));
    assert_eq!(walker.edge_w_sum, numbers(&[1e-6, 1e-6]));
}
