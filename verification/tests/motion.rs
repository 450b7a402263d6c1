use std::f32::consts::PI;
use walker_rl::arithmetic::Arithmetic;
use walker_rl::contact::{grounded, held_by_friction, lifts};
use walker_rl::math::{approx_atan, approx_atan2, signed_right_angle};
use walker_rl::motion::{PhysicsState, Point};
use walker_rl::physics::{Morphology, Segment, WalkerConfig};
use walker_rl::single::Single;
use walker_rl::walker::Walker;

fn single(x: f32) -> Single {
    Single { bits: x.to_bits() }
}

fn float(x: Single) -> f32 {
    f32::from_bits(x.bits)
}

/// The arithmetic of the machine, with one pattern for what is not a number.
struct Machine;

fn tidy(x: f32) -> Single {
    single(if x.is_nan() { f32::NAN } else { x })
}

impl Arithmetic for Machine {
    fn sum(&self, a: Single, b: Single) -> Single {
        tidy(float(a) + float(b))
    }

    fn difference(&self, a: Single, b: Single) -> Single {
        tidy(float(a) - float(b))
    }

    fn product(&self, a: Single, b: Single) -> Single {
        tidy(float(a) * float(b))
    }

    fn quotient(&self, a: Single, b: Single) -> Single {
        tidy(float(a) / float(b))
    }

    fn root(&self, a: Single) -> Single {
        tidy(float(a).sqrt())
    }

    fn square(&self, a: Single) -> Single {
        tidy(float(a) * float(a))
    }

    fn cosine(&self, a: Single) -> Single {
        tidy(float(a).cos())
    }

    fn sine(&self, a: Single) -> Single {
        tidy(float(a).sin())
    }

    fn tangent(&self, a: Single) -> Single {
        tidy(float(a).tanh())
    }

    fn exponential(&self, a: Single) -> Single {
        tidy(float(a).exp())
    }

    fn whole(&self, n: usize) -> Single {
        single(n as f32)
    }

    fn total(&self, numbers: &Vec<Single>) -> Single {
        tidy(numbers.iter().fold(0.0, |sum, x| sum + float(*x)))
    }

    fn dot(&self, a: &Vec<Single>, b: &Vec<Single>) -> Single {
        tidy(a.iter().zip(b).fold(0.0, |sum, (x, y)| sum + float(*x) * float(*y)))
    }
}

fn numbers(list: &[f32]) -> Vec<Single> {
    list.iter().map(|x| single(*x)).collect()
}

fn point(x: f32, y: f32) -> Point {
    Point { x: single(x), y: single(y) }
}

fn humanoid() -> Walker {
    Walker::new(WalkerConfig::default(), &Machine)
}

/// Draws that differ by edge and by walker.
fn some_draws(edges: usize, walkers: usize) -> Vec<Vec<Single>> {
    (0..edges)
        .map(|i| (0..walkers).map(|b| single(((3 * i + 5 * b) % 8) as f32 / 8.0)).collect())
        .collect()
}

#[test]
fn particles_are_placed_along_their_parents() {
    let walker = humanoid();
    let draws = some_draws(10, 2);
    let state = walker.initial_state(&Machine, 2, &draws);
    let ranges: Vec<(f32, f32)> = vec![
        (-0.8, 0.0),
        (-1.2, 1.2),
        (0.0, 2.2),
        (-1.2, 1.2),
        (0.0, 2.2),
        (-0.1, 0.8),
        (-0.7, 1.4),
        (-2.3, 0.0),
        (-0.7, 1.4),
        (-2.3, 0.0),
    ];
    let lengths: Vec<f32> = vec![0.2, 0.3, 0.3, 0.3, 0.3, 0.6, 0.4, 0.4, 0.4, 0.4];
    for b in 0..2 {
        let spots = &state.positions[b];
        assert_eq!(spots.len(), 11);
        assert_eq!(spots[0], point(0.0, 1.6));
        let mut angles: Vec<f32> = Vec::new();
        for edge in 0..10 {
            let base = match walker.init_parent_edge[edge] {
                Some(parent) => angles[parent],
                None => -PI / 2.0,
            };
            let (low, high) = ranges[edge];
            let angle = base + (float(draws[edge][b]) * (high - low) + low);
            angles.push(angle);
            let (p1, p2, _) = walker.edges[edge];
            let from = (float(spots[p1].x), float(spots[p1].y));
            let (x, y) = (from.0 + angle.cos() * lengths[edge], from.1 + angle.sin() * lengths[edge]);
            assert_eq!(spots[p2], point(x, y));
        }
        assert_eq!(state.velocities[b], vec![point(0.0, 0.0); 11]);
    }
    assert_eq!(state.time, numbers(&[0.0, 0.0]));
    assert_eq!(state.target_velocity, numbers(&[0.0, 0.0]));
}

#[test]
fn walkers_start_alone() {
    let walker = humanoid();
    let both = walker.initial_state(&Machine, 2, &some_draws(10, 2));
    let alone: Vec<Vec<Single>> = some_draws(10, 2).iter().map(|row| vec![row[1]]).collect();
    let one = walker.initial_state(&Machine, 1, &alone);
    assert_eq!(one.positions[0], both.positions[1]);
    assert_ne!(both.positions[0], both.positions[1]);
}

#[test]
fn an_empty_batch_has_no_walkers() {
    let walker = humanoid();
    let state = walker.initial_state(&Machine, 0, &vec![vec![]; 10]);
    assert!(state.positions.is_empty());
    let next = walker.step(&Machine, state, &vec![]);
    assert!(next.positions.is_empty());
    assert!(next.time.is_empty());
}

type Vectors = Vec<[f32; 2]>;

fn vectors(points: &[Point]) -> Vectors {
    points.iter().map(|p| [float(p.x), float(p.y)]).collect()
}

fn floats(list: &[Single]) -> Vec<f32> {
    list.iter().map(|x| float(*x)).collect()
}

fn arc(z: f32) -> f32 {
    let core = |z: f32| z * (0.193 * z.powi(4) - 0.333 * z.powi(2) + 1.0);
    if z.abs() > 1.0 {
        z.signum() * PI / 2.0 - core(1.0 / z)
    } else {
        core(z)
    }
}

fn angle_of(y: f32, x: f32) -> f32 {
    if x == 0.0 {
        if y == 0.0 { 0.0 } else { y.signum() * PI / 2.0 }
    } else if x > 0.0 {
        arc(y / x)
    } else if y < 0.0 {
        arc(y / x) - PI
    } else {
        arc(y / x) + PI
    }
}

/// A step written joint by joint and edge by edge.
fn by_hand(walker: &Walker, p: &Vectors, v: &Vectors, action: &[f32]) -> (Vectors, Vectors) {
    let n = walker.n_particles;
    let dt = float(walker.config.time_step);
    let inverse = floats(&walker.inv_masses);
    let parents = floats(&walker.joint_parent_lengths);
    let children = floats(&walker.joint_child_lengths);
    let greatest = floats(&walker.joint_max_torques);
    let mut forces = vec![[0.0f32; 2]; n];
    for (j, (a, b, c)) in walker.joint_pairs.iter().enumerate() {
        let u = [p[*b][0] - p[*a][0], p[*b][1] - p[*a][1]];
        let w = [p[*c][0] - p[*b][0], p[*c][1] - p[*b][1]];
        let nu = (u[0] * u[0] + u[1] * u[1]).sqrt().max(1e-6);
        let nw = (w[0] * w[0] + w[1] * w[1]).sqrt().max(1e-6);
        let fu = action[j] / parents[j] * greatest[j];
        let fw = action[j] / children[j] * greatest[j];
        let first = [-u[1] / nu * fu, u[0] / nu * fu];
        let third = [-w[1] / nw * fw, w[0] / nw * fw];
        for d in 0..2 {
            forces[*a][d] += first[d];
            forces[*b][d] -= first[d] + third[d];
            forces[*c][d] += third[d];
        }
    }
    let gravity = [0.0, -float(walker.config.gravity)];
    let mut q: Vectors = (0..n)
        .map(|k| {
            let mut spot = [0.0; 2];
            for d in 0..2 {
                let kicked = v[k][d] + (gravity[d] + forces[k][d] * inverse[k]) * dt;
                spot[d] = p[k][d] + kicked * dt;
            }
            spot
        })
        .collect();
    for _ in 0..walker.config.constraint_iterations {
        let mut shift = vec![[0.0f32; 2]; n];
        for (a, b, length) in &walker.edges {
            let delta = [q[*b][0] - q[*a][0], q[*b][1] - q[*a][1]];
            let dist = (delta[0] * delta[0] + delta[1] * delta[1]).sqrt().max(1e-6);
            let diff = (dist - float(*length)) / dist;
            let weights = (inverse[*a] + inverse[*b]).max(1e-6);
            for d in 0..2 {
                shift[*a][d] += delta[d] * diff * (inverse[*a] / weights);
                shift[*b][d] -= delta[d] * diff * (inverse[*b] / weights);
            }
        }
        for k in 0..n {
            q[k] = [q[k][0] + shift[k][0], q[k][1] + shift[k][1]];
        }
        let mut shift = vec![[0.0f32; 2]; n];
        for (j, (a, b, c)) in walker.joint_pairs.iter().enumerate() {
            let u = [q[*b][0] - q[*a][0], q[*b][1] - q[*a][1]];
            let w = [q[*c][0] - q[*b][0], q[*c][1] - q[*b][1]];
            let angle = angle_of(u[0] * w[1] - u[1] * w[0], u[0] * w[0] + u[1] * w[1]);
            let low = float(walker.joint_angle_min[j]);
            let high = float(walker.joint_angle_max[j]);
            let excess = angle - angle.max(low).min(high);
            let lu = (u[0] * u[0] + u[1] * u[1]).max(1e-6);
            let lw = (w[0] * w[0] + w[1] * w[1]).max(1e-6);
            let gp = [-u[1] / lu, u[0] / lu];
            let gc = [-w[1] / lw, w[0] / lw];
            let gj = [-(gp[0] + gc[0]), -(gp[1] + gc[1])];
            let square = |g: [f32; 2]| g[0] * g[0] + g[1] * g[1];
            let denominator = inverse[*a] * square(gp)
                + inverse[*c] * square(gc)
                + inverse[*b] * square(gj)
                + 1e-4;
            let lambda = -excess / denominator;
            for d in 0..2 {
                shift[*a][d] += gp[d] * lambda * inverse[*a];
                shift[*b][d] += gj[d] * lambda * inverse[*b];
                shift[*c][d] += gc[d] * lambda * inverse[*c];
            }
        }
        for k in 0..n {
            q[k] = [q[k][0] + shift[k][0], q[k][1] + shift[k][1]];
            if q[k][1] <= 0.01 {
                q[k][0] += -(q[k][0] - p[k][0]) * float(walker.config.friction);
            }
            if q[k][1] < 0.0 {
                q[k][1] = 0.0;
            }
        }
    }
    let velocities = (0..n)
        .map(|k| [(q[k][0] - p[k][0]) / dt, (q[k][1] - p[k][1]) / dt])
        .collect();
    (q, velocities)
}

fn close(a: &Vectors, b: &Vectors, most: f32) {
    for (x, y) in a.iter().zip(b) {
        assert!((x[0] - y[0]).abs() < most && (x[1] - y[1]).abs() < most, "{:?} {:?}", x, y);
    }
}

#[test]
fn a_step_is_what_its_parts_make_it() {
    let walker = humanoid();
    let mut state = walker.initial_state(&Machine, 2, &some_draws(10, 2));
    state.target_velocity = numbers(&[1.0, -0.25]);
    for t in 0..30 {
        let action: Vec<Vec<Single>> = (0..2)
            .map(|b| (0..9).map(|j| single(((t + 2 * j + b) % 5) as f32 / 4.0 - 0.5)).collect())
            .collect();
        let before: Vec<(Vectors, Vectors)> = (0..2)
            .map(|b| (vectors(&state.positions[b]), vectors(&state.velocities[b])))
            .collect();
        let time = state.time.clone();
        state = walker.step(&Machine, state, &action);
        for b in 0..2 {
            let (p, v) = &before[b];
            let (q, w) = by_hand(&walker, p, v, &floats(&action[b]));
            close(&vectors(&state.positions[b]), &q, 1e-4);
            close(&vectors(&state.velocities[b]), &w, 1e-2);
            assert_eq!(state.time[b], single(float(time[b]) + 1.0 / 60.0));
        }
    }
    assert_eq!(state.target_velocity, numbers(&[1.0, -0.25]));
    assert_eq!(state.positions.len(), 2);
    assert_eq!(state.positions[1].len(), 11);
}

fn segment(length: f32, children: Vec<Segment>) -> Segment {
    Segment {
        length: single(length),
        mass: single(2.0),
        angle_min: single(-1.0),
        angle_max: single(1.0),
        max_torque: single(4.0),
        children,
    }
}

fn small(root: Segment, constraint_iterations: usize) -> Walker {
    let config = WalkerConfig {
        gravity: single(8.0),
        morphology: Morphology { root },
        time_step: single(0.25),
        friction: single(1.0),
        fall_y: single(1.0),
        constraint_iterations,
    };
    Walker::new(config, &Machine)
}

fn resting(positions: Vec<Point>) -> PhysicsState {
    PhysicsState {
        velocities: vec![vec![point(0.0, 0.0); positions.len()]],
        positions: vec![positions],
        time: numbers(&[1.0]),
        target_velocity: numbers(&[0.5]),
    }
}

#[test]
fn a_segment_in_the_air_falls() {
    let walker = small(segment(1.0, vec![]), 2);
    let next = walker.step(&Machine, resting(vec![point(0.0, 5.0), point(0.0, 4.0)]), &vec![vec![]]);
    assert_eq!(next.positions[0], vec![point(0.0, 4.5), point(0.0, 3.5)]);
    assert_eq!(next.velocities[0], vec![point(0.0, -2.0); 2]);
    assert_eq!(next.time, numbers(&[1.25]));
    assert_eq!(next.target_velocity, numbers(&[0.5]));
}

#[test]
fn torques_push_the_particles_of_a_joint_apart() {
    let walker = small(segment(1.0, vec![segment(1.0, vec![])]), 0);
    let start = vec![point(0.0, 9.0), point(0.0, 8.0), point(0.0, 7.0)];
    let next = walker.step(&Machine, resting(start), &vec![numbers(&[1.0])]);
    // Forces of 4, -8 and 4 on masses of 1, 2 and 1.
    assert_eq!(
        next.positions[0],
        vec![point(0.25, 8.5), point(-0.25, 7.5), point(0.25, 6.5)]
    );
    assert_eq!(
        walker.center_of_mass(&Machine, &next.positions),
        vec![point(0.0, 7.5)]
    );
}

#[test]
fn edges_are_drawn_to_their_lengths() {
    let walker = small(segment(1.0, vec![]), 1);
    let next = walker.step(&Machine, resting(vec![point(0.0, 5.0), point(2.0, 5.0)]), &vec![vec![]]);
    assert_eq!(next.positions[0], vec![point(0.5, 4.5), point(1.5, 4.5)]);
    let free = small(segment(1.0, vec![]), 0);
    let next = free.step(&Machine, resting(vec![point(0.0, 5.0), point(2.0, 5.0)]), &vec![vec![]]);
    assert_eq!(next.positions[0], vec![point(0.0, 4.5), point(2.0, 4.5)]);
}

#[test]
fn the_ground_holds_and_lifts() {
    let walker = small(segment(1.0, vec![]), 1);
    let mut state = resting(vec![point(0.0, 0.25), point(1.0, 0.25)]);
    state.velocities[0] = vec![point(1.0, 0.0); 2];
    let next = walker.step(&Machine, state, &vec![vec![]]);
    assert_eq!(next.positions[0], vec![point(0.0, 0.0), point(1.0, 0.0)]);
    assert_eq!(next.velocities[0], vec![point(0.0, -1.0); 2]);
}

#[test]
fn no_particle_is_left_below_the_ground() {
    let walker = humanoid();
    let mut state = walker.initial_state(&Machine, 3, &some_draws(10, 3));
    for row in state.positions.iter_mut() {
        for p in row.iter_mut() {
            p.y = single(float(p.y) - 1.5);
        }
    }
    for t in 0..40 {
        let action = vec![vec![single(if t % 2 == 0 { 1.0 } else { -1.0 }); 9]; 3];
        state = walker.step(&Machine, state, &action);
        assert!(state.positions.iter().flatten().all(|p| !(float(p.y) < 0.0)));
    }
}

#[test]
fn walkers_walk_alone() {
    let walker = humanoid();
    let start = || walker.initial_state(&Machine, 3, &some_draws(10, 3));
    let action: Vec<Vec<Single>> = (0..3).map(|b| vec![single(b as f32 / 4.0); 9]).collect();
    let together = walker.step(&Machine, start(), &action);
    for b in 0..3 {
        let alone = PhysicsState {
            positions: vec![start().positions[b].clone()],
            velocities: vec![start().velocities[b].clone()],
            time: numbers(&[77.0]),
            target_velocity: numbers(&[-3.0]),
        };
        let next = walker.step(&Machine, alone, &vec![action[b].clone()]);
        assert_eq!(next.positions[0], together.positions[b]);
        assert_eq!(next.velocities[0], together.velocities[b]);
    }
}

#[test]
fn walkers_walk_alike_everywhere() {
    let walker = humanoid();
    let mut here = walker.initial_state(&Machine, 1, &some_draws(10, 1));
    let mut there = here.clone();
    for p in there.positions[0].iter_mut() {
        p.x = single(float(p.x) + 4.0);
    }
    for t in 0..10 {
        let action = vec![vec![single((t % 3) as f32 / 4.0); 9]];
        here = walker.step(&Machine, here, &action);
        there = walker.step(&Machine, there, &action);
    }
    for (p, q) in here.positions[0].iter().zip(&there.positions[0]) {
        assert!((float(p.x) + 4.0 - float(q.x)).abs() < 1e-3);
        assert!((float(p.y) - float(q.y)).abs() < 1e-3);
    }
}

#[test]
fn exact_steps_are_the_same_everywhere() {
    let walker = small(segment(1.0, vec![]), 2);
    let from = |x: f32| {
        let start = resting(vec![point(x, 5.0), point(x + 2.0, 5.0)]);
        walker.step(&Machine, start, &vec![vec![]])
    };
    let (here, there) = (from(0.0), from(64.0));
    assert_eq!(here.positions[0], vec![point(0.5, 4.5), point(1.5, 4.5)]);
    assert_eq!(there.positions[0], vec![point(64.5, 4.5), point(65.5, 4.5)]);
    assert_eq!(here.velocities, there.velocities);
}

#[test]
fn torques_add_no_momentum() {
    let walker = humanoid();
    let mut state = walker.initial_state(&Machine, 1, &some_draws(10, 1));
    for p in state.positions[0].iter_mut() {
        p.y = single(float(p.y) + 50.0);
    }
    let start = walker.center_of_mass(&Machine, &state.positions)[0];
    let steps = 20;
    for t in 0..steps {
        state = walker.step(&Machine, state, &vec![vec![single((t % 4) as f32 / 4.0); 9]]);
    }
    let end = walker.center_of_mass(&Machine, &state.positions)[0];
    let fallen = 9.8 / 3600.0 * (steps * (steps + 1) / 2) as f32;
    assert!((float(end.x) - float(start.x)).abs() < 1e-2);
    assert!((float(start.y) - float(end.y) - fallen).abs() < 1e-2);
}

#[test]
fn particles_touch_the_ground_up_to_a_hundredth() {
    let y = numbers(&[-1.0, 0.0, 0.01, 0.010000001, 0.02, f32::NAN]);
    assert_eq!(grounded(&y), vec![true, true, true, false, false, false]);
    let friction = numbers(&[1.0, 2.0, 3.0, 4.0, 5.0, 6.0]);
    assert_eq!(held_by_friction(&y, friction), numbers(&[1.0, 2.0, 3.0, 0.0, 0.0, 0.0]));
    assert_eq!(lifts(&y), numbers(&[1.0, 0.0, 0.0, 0.0, 0.0, 0.0]));
}

#[test]
fn angles_are_limited_joint_by_joint() {
    let walker = humanoid();
    assert_eq!(walker.limit_angles(&vec![single(-3.0); 9]), walker.joint_angle_min);
    assert_eq!(walker.limit_angles(&vec![single(3.0); 9]), walker.joint_angle_max);
    let inside = walker.joint_angle_max.clone();
    assert_eq!(walker.limit_angles(&inside), inside);
    assert!(walker.limit_angles(&vec![single(f32::NAN); 9])[0].is_nan());
}

#[test]
fn the_arcus_tangent_is_close_in_all_quadrants() {
    let angles: Vec<f32> = (0..64).map(|k| (k as f32 + 0.5) / 64.0 * 2.0 * PI - PI).collect();
    let y: Vec<Single> = angles.iter().map(|a| single(a.sin())).collect();
    let x: Vec<Single> = angles.iter().map(|a| single(a.cos())).collect();
    let found = approx_atan2(&Machine, &y, &x);
    assert_eq!(found.len(), 64);
    for (angle, found) in angles.iter().zip(found) {
        let error = float(found) - angle;
        assert!(error.abs() < 0.08, "{} at {}", error, angle);
    }
}

#[test]
fn the_arcus_tangent_is_folded_outside_its_range() {
    let z = numbers(&[0.5, 1.0, -1.0, 2.0, -4.0]);
    let value = |z: f32| {
        let z2 = z * z;
        z * (z2 * z2 * 0.193 + z2 * -0.333 + 1.0)
    };
    assert_eq!(
        approx_atan(&Machine, &z),
        numbers(&[
            value(0.5),
            value(1.0),
            value(-1.0),
            PI / 2.0 - value(0.5),
            -PI / 2.0 - value(-0.25)
        ])
    );
}

#[test]
fn the_vertical_axis_has_right_angles() {
    let y = numbers(&[3.0, -3.0, 0.0, -0.0, f32::NAN]);
    let right = numbers(&[PI / 2.0, -PI / 2.0, 0.0, 0.0, 0.0]);
    assert_eq!(approx_atan2(&Machine, &y, &vec![single(0.0); 5]), right);
    assert_eq!(approx_atan2(&Machine, &y, &vec![single(-0.0); 5]), right);
    assert_eq!(signed_right_angle(single(1e-30)), single(PI / 2.0));
    let left = approx_atan2(&Machine, &numbers(&[0.0, -0.0]), &numbers(&[-1.0, -1.0]));
    assert_eq!(left, numbers(&[PI, PI]));
}

#[test]
fn mirrored_points_have_negated_angles() {
    for (y, x) in [(1.0f32, 2.0f32), (2.0, 1.0), (0.5, -3.0), (3.0, -0.5), (1e-3, 5.0), (4.0, 0.0)] {
        let found = approx_atan2(&Machine, &numbers(&[y, -y]), &numbers(&[x, x]));
        assert_eq!(float(found[1]), -float(found[0]));
    }
    for z in [0.3f32, 1.0, 1.5, 100.0] {
        let found = approx_atan(&Machine, &numbers(&[z, -z]));
        assert_eq!(float(found[1]), -float(found[0]));
    }
}

#[test]
fn steep_arcs_complete_those_of_the_inverse() {
    let steep = numbers(&[2.0, -4.0, 3.0, 1e9, f32::INFINITY, f32::NEG_INFINITY]);
    let inverse: Vec<Single> = steep.iter().map(|z| single(1.0 / float(*z))).collect();
    let (found, rest) = (approx_atan(&Machine, &steep), approx_atan(&Machine, &inverse));
    for i in 0..steep.len() {
        let right = float(signed_right_angle(steep[i]));
        assert_eq!(float(found[i]), right - float(rest[i]));
    }
    assert_eq!(found[4], single(PI / 2.0));
    assert_eq!(found[5], single(-PI / 2.0));
}

#[test]
fn arcs_and_angles_have_bounds() {
    let z = numbers(&[0.0, -0.0, 1e-40, 0.5, 1.0, 1.0000001, 7.0, f32::MAX, f32::INFINITY]);
    for (z, arc) in z.iter().zip(approx_atan(&Machine, &z)) {
        assert!(0.0 <= float(arc) && float(arc) <= PI / 2.0);
        let turned = approx_atan(&Machine, &vec![z.negate()])[0];
        assert!(-PI / 2.0 <= float(turned) && float(turned) <= 0.0);
    }
    assert_eq!(float(approx_atan(&Machine, &numbers(&[0.0]))[0]), 0.0);
    for y in [0.0f32, 1e-30, 1.0, 3e38] {
        for x in [-3e38f32, -1.0, -1e-30, 0.0, 1e-30, 1.0, 3e38] {
            let found = approx_atan2(&Machine, &numbers(&[y, -y]), &numbers(&[x, x]));
            assert!(0.0 <= float(found[0]) && float(found[0]) <= PI);
            if y > 0.0 {
                assert!(-PI <= float(found[1]) && float(found[1]) <= 0.0);
            }
        }
    }
}

#[test]
fn a_common_factor_leaves_the_angle() {
    for (y, x) in [(1.0f32, 3.0f32), (-7.0, 2.0), (5.0, -3.0), (-1.0, -9.0), (2.0, 0.0), (0.0, -1.0)] {
        let found = approx_atan2(
            &Machine,
            &numbers(&[y, 4.0 * y, 0.125 * y]),
            &numbers(&[x, 4.0 * x, 0.125 * x]),
        );
        assert_eq!(found[0], found[1]);
        assert_eq!(found[0], found[2]);
    }
}

#[test]
fn points_mirrored_at_the_vertical_axis_or_the_origin_keep_a_half_turn() {
    for (y, x) in [(1.0f32, 2.0f32), (2.0, 1.0), (3.0, 0.5), (1e-3, 5.0), (5.0, 1e-3)] {
        let found = approx_atan2(&Machine, &numbers(&[y, y, -y]), &numbers(&[x, -x, -x]));
        assert_eq!(float(found[1]), PI - float(found[0]));
        assert_eq!(float(found[2]), float(found[0]) - PI);
    }
    // Where nothing is rounded, the mirror image may stand on either side.
    let found = approx_atan2(&Machine, &numbers(&[1e30, 1e30, -1e30]), &numbers(&[-1e-30, 1e-30, 1e-30]));
    assert_eq!(float(found[1]), PI - float(found[0]));
    assert_eq!(float(found[2]), float(found[0]) - PI);
}
