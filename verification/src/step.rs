//! Moving a batch of walkers by one step.

use crate::arithmetic::{
    differences, products, quotients, roots, sums, Arithmetic, Operations,
};
use crate::contact::{held_back, held_by_friction, lifts, raised};
use crate::field::{field, Columns, Field};
use crate::lanes::{filled, floored_lanes, floors, is_grid, negated_lanes, negatives, repeated};
use crate::math::approx_atan2;
use crate::motion::{is_batch, PhysicsState, Point};
use crate::numbers::{ONE_MILLIONTH, ONE_TEN_THOUSANDTH};
use crate::single::{Single, ZERO};
use crate::walker::{law_indices_name_particles, Walker};
use vstd::prelude::*;

verus! {

/// No length counts as less than this.
pub open spec fn tiny() -> Single {
    Single::of(ONE_MILLIONTH)
}

impl Walker {
    /// The pull of gravity on every particle.
    pub open spec fn gravity(&self) -> Field {
        Field {
            x: repeated(Single::of(ZERO), self.n_particles as nat),
            y: repeated(self.config.gravity.negated(), self.n_particles as nat),
        }
    }

    /// At each joint, the edge that leads to it.
    pub open spec fn towards(&self, m: Operations, p: Field) -> Field {
        m.minus(p.selected(self.joint_idx_j@), p.selected(self.joint_idx_p@))
    }

    /// At each joint, the edge that leads on.
    pub open spec fn onwards(&self, m: Operations, p: Field) -> Field {
        m.minus(p.selected(self.joint_idx_c@), p.selected(self.joint_idx_j@))
    }
}

impl Operations {
    /// The lengths of the vectors, none less than a millionth.
    pub open spec fn lengths(self, a: Field) -> Seq<Single> {
        floors(self.roots(self.inner_products(a, a)), tiny())
    }

    /// The squares of the lengths of the vectors, none less than a millionth.
    pub open spec fn squared_lengths(self, a: Field) -> Seq<Single> {
        floors(self.inner_products(a, a), tiny())
    }

    /// Every vector multiplied by the same number.
    pub open spec fn times(self, a: Field, by: Single) -> Field {
        self.scaled(a, repeated(by, a.x.len()))
    }

    /// The forces at the ends of edges of the given lengths, at right angles to them, for torques that
    /// are given as parts of the greatest.
    pub open spec fn end_forces(
        self,
        edges: Field,
        torques: Seq<Single>,
        lengths: Seq<Single>,
        greatest: Seq<Single>,
    ) -> Field {
        self.scaled(
            self.shrunk(edges, self.lengths(edges)).perpendicular(),
            self.products(self.quotients(torques, lengths), greatest),
        )
    }

    /// The forces of the joints on their first particles, then on their second, then on their third,
    /// the second particle bearing what balances the other two.
    pub open spec fn joint_forces(self, parents: Field, children: Field) -> Field {
        parents.followed(self.plus(children, parents).reversed()).followed(children)
    }

    /// The forces of the torques at the joints on their first particles and on their third.
    pub open spec fn joint_ends(
        self,
        walker: Walker,
        p: Field,
        action: Seq<Single>,
    ) -> (Field, Field) {
        let parents = self.end_forces(
            walker.towards(self, p),
            action,
            walker.joint_parent_lengths@,
            walker.joint_max_torques@,
        );
        let children = self.end_forces(
            walker.onwards(self, p),
            action,
            walker.joint_child_lengths@,
            walker.joint_max_torques@,
        );
        (parents, children)
    }

    /// The forces of the torques at the joints on the particles.
    pub open spec fn torque_forces(self, walker: Walker, p: Field, action: Seq<Single>) -> Field {
        let (parents, children) = self.joint_ends(walker, p, action);
        self.spread(
            walker.joint_map_combined@,
            walker.n_particles as nat,
            self.joint_forces(parents, children),
        )
    }

    /// The acceleration of the particles under gravity and the torques at the joints.
    pub open spec fn acceleration(self, walker: Walker, p: Field, action: Seq<Single>) -> Field {
        self.plus(
            walker.gravity(),
            self.scaled(self.torque_forces(walker, p, action), walker.inv_masses@),
        )
    }

    /// The positions that a step predicts before the constraints: the forces change the velocities, and
    /// the changed velocities the positions.
    pub open spec fn predicted(
        self,
        walker: Walker,
        p: Field,
        v: Field,
        action: Seq<Single>,
    ) -> Field {
        let dt = walker.config.time_step;
        let kicked = self.plus(v, self.times(self.acceleration(walker, p, action), dt));
        self.plus(p, self.times(kicked, dt))
    }

    /// How far the two ends of each edge are from its length, along the edge.
    pub open spec fn length_correction(self, walker: Walker, p: Field) -> Field {
        let delta = self.minus(p.selected(walker.edge_idx_2@), p.selected(walker.edge_idx_1@));
        let dist = self.lengths(delta);
        self.scaled(
            delta,
            self.quotients(self.differences(dist, walker.edge_lengths@), dist),
        )
    }

    /// The shares of the starts and of the ends of the edges in a correction, by their weights.
    pub open spec fn length_shares(self, walker: Walker, correction: Field) -> (Field, Field) {
        (
            self.scaled(correction, self.quotients(walker.edge_w1@, walker.edge_w_sum@)),
            self.scaled(correction, self.quotients(walker.edge_w2@, walker.edge_w_sum@)),
        )
    }

    /// How the lengths of the edges move the particles.
    pub open spec fn length_shift(self, walker: Walker, p: Field) -> Field {
        let (starts, ends) = self.length_shares(walker, self.length_correction(walker, p));
        self.spread(walker.edge_map_combined@, walker.n_particles as nat, starts.followed(ends))
    }

    /// The positions drawn towards the lengths of the edges.
    pub open spec fn hold_lengths(self, walker: Walker, p: Field) -> Field {
        self.plus(p, self.length_shift(walker, p))
    }

    /// What an excess of the angles at the joints is divided by.
    pub open spec fn stiffness(
        self,
        walker: Walker,
        gp: Field,
        gj: Field,
        gc: Field,
    ) -> Seq<Single> {
        let first = self.products(walker.joint_w_p@, self.inner_products(gp, gp));
        let third = self.products(walker.joint_w_c@, self.inner_products(gc, gc));
        let second = self.products(walker.joint_w_j@, self.inner_products(gj, gj));
        self.sums(
            self.sums(self.sums(first, third), second),
            repeated(Single::of(ONE_TEN_THOUSANDTH), walker.joint_pairs@.len()),
        )
    }

    /// The correction of one particle at each joint.
    pub open spec fn joint_correction(
        self,
        gradient: Field,
        lambda: Seq<Single>,
        weights: Seq<Single>,
    ) -> Field {
        self.scaled(self.scaled(gradient, lambda), weights)
    }

    /// How the angles at the joints change with their first and with their third particles.
    pub open spec fn gradients(self, walker: Walker, p: Field) -> (Field, Field) {
        let u = walker.towards(self, p);
        let v = walker.onwards(self, p);
        (
            self.shrunk(u.perpendicular(), self.squared_lengths(u)),
            self.shrunk(v.perpendicular(), self.squared_lengths(v)),
        )
    }

    /// How far the particles at the joints are moved along the gradients, given those of the first and
    /// the third particles.
    pub open spec fn multipliers(self, walker: Walker, p: Field, gp: Field, gc: Field) -> Seq<Single> {
        let u = walker.towards(self, p);
        let v = walker.onwards(self, p);
        let angles = self.angles(self.outer_products(u, v), self.inner_products(u, v));
        let excess = self.differences(angles, walker.limited(angles));
        let gj = self.plus(gp, gc).reversed();
        self.quotients(negatives(excess), self.stiffness(walker, gp, gj, gc))
    }

    /// How the ranges of the joints move the particles, given the gradients of the first and the third
    /// particles: the second bear what balances the other two.
    pub open spec fn angle_shift(
        self,
        walker: Walker,
        gp: Field,
        gc: Field,
        lambda: Seq<Single>,
    ) -> Field {
        let gj = self.plus(gp, gc).reversed();
        let corrections = self.joint_correction(gp, lambda, walker.joint_w_p@).followed(
            self.joint_correction(gj, lambda, walker.joint_w_j@),
        ).followed(self.joint_correction(gc, lambda, walker.joint_w_c@));
        self.spread(walker.joint_map_combined@, walker.n_particles as nat, corrections)
    }

    /// The positions drawn towards the ranges of the joints.
    pub open spec fn hold_angles(self, walker: Walker, p: Field) -> Field {
        let (gp, gc) = self.gradients(walker, p);
        self.plus(
            p,
            self.angle_shift(walker, gp, gc, self.multipliers(walker, p, gp, gc)),
        )
    }

    /// The positions drawn back by friction where they touch the ground, and raised out of it, when the
    /// step started from `start`.
    pub open spec fn hold_ground(self, walker: Walker, start: Field, p: Field) -> Field {
        let pull = self.products(
            negatives(self.differences(p.x, start.x)),
            repeated(walker.config.friction, p.x.len()),
        );
        self.plus(p, Field { x: held_back(p.y, pull), y: raised(p.y) })
    }

    /// One round of constraints: the lengths of the edges, then the ranges of the joints, then the
    /// ground.
    pub open spec fn round(self, walker: Walker, start: Field, p: Field) -> Field {
        self.hold_ground(walker, start, self.hold_angles(walker, self.hold_lengths(walker, p)))
    }

    /// As many rounds of constraints, one after the other.
    pub open spec fn rounds(self, walker: Walker, start: Field, p: Field, count: nat) -> Field
        decreases count,
    {
        if count == 0 {
            p
        } else {
            self.round(walker, start, self.rounds(walker, start, p, (count - 1) as nat))
        }
    }

    /// Where the particles of a walker are after one step: where the constraints lead from the
    /// prediction.
    pub open spec fn arrival(
        self,
        walker: Walker,
        p: Field,
        v: Field,
        action: Seq<Single>,
    ) -> Field {
        self.rounds(
            walker,
            p,
            self.predicted(walker, p, v, action),
            walker.config.constraint_iterations as nat,
        )
    }

    /// The velocities that lead from the one to the other in one step.
    pub open spec fn velocity(self, walker: Walker, from: Field, to: Field) -> Field {
        self.shrunk(self.minus(to, from), repeated(walker.config.time_step, from.x.len()))
    }
}

impl Walker {
    /// The indices, the maps and the lists of the walker fit together.
    spec fn is_wired(&self) -> bool {
        let (n, e, j) = (self.n_particles as nat, self.edges@.len(), self.joint_pairs@.len());
        &&& self.wf()
        &&& self.edge_idx_1@.len() == e && self.edge_idx_2@.len() == e
        &&& self.edge_lengths@.len() == e
        &&& self.edge_w1@.len() == e && self.edge_w2@.len() == e && self.edge_w_sum@.len() == e
        &&& self.edge_map_combined@.len() == n * (e + e)
        &&& self.joint_idx_p@.len() == j && self.joint_idx_j@.len() == j
        &&& self.joint_idx_c@.len() == j
        &&& self.joint_parent_lengths@.len() == j && self.joint_child_lengths@.len() == j
        &&& self.joint_max_torques@.len() == j
        &&& self.joint_w_p@.len() == j && self.joint_w_j@.len() == j && self.joint_w_c@.len() == j
        &&& self.joint_map_combined@.len() == n * (j + j + j)
        &&& self.inv_masses@.len() == n
        &&& forall|i: int| 0 <= i < e ==> 0 <= #[trigger] self.edge_idx_1@[i] < n
        &&& forall|i: int| 0 <= i < e ==> 0 <= #[trigger] self.edge_idx_2@[i] < n
        &&& forall|i: int| 0 <= i < j ==> 0 <= #[trigger] self.joint_idx_p@[i] < n
        &&& forall|i: int| 0 <= i < j ==> 0 <= #[trigger] self.joint_idx_j@[i] < n
        &&& forall|i: int| 0 <= i < j ==> 0 <= #[trigger] self.joint_idx_c@[i] < n
    }

    proof fn lemma_is_wired(&self)
        requires
            self.wf(),
        ensures
            self.is_wired(),
    {
        law_indices_name_particles(*self);
        assert(self.edge_columns().len() == self.edges@.len() + self.edges@.len());
        assert(self.joint_columns().len() == self.joint_pairs@.len() + self.joint_pairs@.len()
            + self.joint_pairs@.len());
    }
}

/// The lengths of the vectors, none less than a millionth.
fn lengths<A: Arithmetic>(arithmetic: &A, a: &Columns) -> (r: Vec<Single>)
    requires
        a@.has(a.x@.len()),
    ensures
        r@.len() == a.x@.len(),
        forall|m: Operations| #[trigger] m.describes(*arithmetic) ==> r@ == m.lengths(a@),
{
    let squares = a.inner_products(arithmetic, a);
    floored_lanes(&roots(arithmetic, &squares), Single { bits: ONE_MILLIONTH })
}

/// Every vector multiplied by the same number.
fn times<A: Arithmetic>(arithmetic: &A, a: &Columns, by: Single) -> (r: Columns)
    requires
        a@.has(a.x@.len()),
    ensures
        r@.has(a.x@.len()),
        forall|m: Operations| #[trigger] m.describes(*arithmetic) ==> r@ == m.times(a@, by),
{
    let factors = filled(a.x.len(), by);
    a.scaled(arithmetic, &factors)
}

/// The forces at the ends of edges.
fn end_forces<A: Arithmetic>(
    arithmetic: &A,
    edges: &Columns,
    torques: &Vec<Single>,
    lengths_given: &Vec<Single>,
    greatest: &Vec<Single>,
) -> (r: Columns)
    requires
        edges@.has(torques@.len()),
        lengths_given@.len() == torques@.len(),
        greatest@.len() == torques@.len(),
    ensures
        r@.has(torques@.len()),
        forall|m: Operations| #[trigger]
            m.describes(*arithmetic) ==> r@ == m.end_forces(
                edges@,
                torques@,
                lengths_given@,
                greatest@,
            ),
{
    let norms = lengths(arithmetic, edges);
    let across = edges.shrunk(arithmetic, &norms).perpendicular();
    let parts = quotients(arithmetic, torques, lengths_given);
    let strengths = products(arithmetic, &parts, greatest);
    across.scaled(arithmetic, &strengths)
}

impl Walker {
    /// At each joint, the edge that leads to it and the one that leads on.
    fn arms<A: Arithmetic>(&self, arithmetic: &A, p: &Columns) -> (r: (Columns, Columns))
        requires
            self.is_wired(),
            p@.has(self.n_particles as nat),
        ensures
            r.0@.has(self.joint_pairs@.len()),
            r.1@.has(self.joint_pairs@.len()),
            forall|m: Operations| #[trigger]
                m.describes(*arithmetic) ==> r.0@ == self.towards(m, p@) && r.1@ == self.onwards(
                    m,
                    p@,
                ),
    {
        let first = p.selected(&self.joint_idx_p);
        let second = p.selected(&self.joint_idx_j);
        let third = p.selected(&self.joint_idx_c);
        (second.minus(arithmetic, &first), third.minus(arithmetic, &second))
    }

    /// The acceleration of the particles under gravity and the torques at the joints.
    fn acceleration<A: Arithmetic>(
        &self,
        arithmetic: &A,
        p: &Columns,
        action: &Vec<Single>,
    ) -> (r: Columns)
        requires
            self.is_wired(),
            p@.has(self.n_particles as nat),
            action@.len() == self.joint_pairs@.len(),
        ensures
            r@.has(self.n_particles as nat),
            forall|m: Operations| #[trigger]
                m.describes(*arithmetic) ==> r@ == m.acceleration(*self, p@, action@),
    {
        let n = self.n_particles;
        let gravity = Columns {
            x: filled(n, Single { bits: ZERO }),
            y: filled(n, self.config.gravity.negate()),
        };
        assert(gravity@.x =~= self.gravity().x);
        assert(gravity@.y =~= self.gravity().y);
        let (towards, onwards) = self.arms(arithmetic, p);
        let parents = end_forces(
            arithmetic,
            &towards,
            action,
            &self.joint_parent_lengths,
            &self.joint_max_torques,
        );
        let children = end_forces(
            arithmetic,
            &onwards,
            action,
            &self.joint_child_lengths,
            &self.joint_max_torques,
        );
        let middles = children.plus(arithmetic, &parents).reversed();
        let combined = parents.followed(&middles).followed(&children);
        let forces = combined.spread(arithmetic, &self.joint_map_combined, n);
        let pushes = forces.scaled(arithmetic, &self.inv_masses);
        gravity.plus(arithmetic, &pushes)
    }

    /// The positions that a step predicts before the constraints.
    fn predict<A: Arithmetic>(
        &self,
        arithmetic: &A,
        p: &Columns,
        v: &Columns,
        action: &Vec<Single>,
    ) -> (r: Columns)
        requires
            self.is_wired(),
            p@.has(self.n_particles as nat),
            v@.has(self.n_particles as nat),
            action@.len() == self.joint_pairs@.len(),
        ensures
            r@.has(self.n_particles as nat),
            forall|m: Operations| #[trigger]
                m.describes(*arithmetic) ==> r@ == m.predicted(*self, p@, v@, action@),
    {
        let dt = self.config.time_step;
        let acceleration = self.acceleration(arithmetic, p, action);
        let kick = times(arithmetic, &acceleration, dt);
        let kicked = v.plus(arithmetic, &kick);
        let drift = times(arithmetic, &kicked, dt);
        p.plus(arithmetic, &drift)
    }

    /// The positions drawn towards the lengths of the edges.
    fn hold_lengths<A: Arithmetic>(&self, arithmetic: &A, p: &Columns) -> (r: Columns)
        requires
            self.is_wired(),
            p@.has(self.n_particles as nat),
        ensures
            r@.has(self.n_particles as nat),
            forall|m: Operations| #[trigger]
                m.describes(*arithmetic) ==> r@ == m.hold_lengths(*self, p@),
    {
        let starts = p.selected(&self.edge_idx_1);
        let ends = p.selected(&self.edge_idx_2);
        let delta = ends.minus(arithmetic, &starts);
        let dist = lengths(arithmetic, &delta);
        let surplus = differences(arithmetic, &dist, &self.edge_lengths);
        let diff = quotients(arithmetic, &surplus, &dist);
        let correction = delta.scaled(arithmetic, &diff);
        let share_1 = quotients(arithmetic, &self.edge_w1, &self.edge_w_sum);
        let share_2 = quotients(arithmetic, &self.edge_w2, &self.edge_w_sum);
        let c1 = correction.scaled(arithmetic, &share_1);
        let c2 = correction.scaled(arithmetic, &share_2);
        let combined = c1.followed(&c2);
        let total = combined.spread(arithmetic, &self.edge_map_combined, self.n_particles);
        p.plus(arithmetic, &total)
    }

    /// What an excess of the angles at the joints is divided by.
    fn stiffness<A: Arithmetic>(
        &self,
        arithmetic: &A,
        gp: &Columns,
        gj: &Columns,
        gc: &Columns,
    ) -> (r: Vec<Single>)
        requires
            self.is_wired(),
            gp@.has(self.joint_pairs@.len()),
            gj@.has(self.joint_pairs@.len()),
            gc@.has(self.joint_pairs@.len()),
        ensures
            r@.len() == self.joint_pairs@.len(),
            forall|m: Operations| #[trigger]
                m.describes(*arithmetic) ==> r@ == m.stiffness(*self, gp@, gj@, gc@),
    {
        let first = products(arithmetic, &self.joint_w_p, &gp.inner_products(arithmetic, gp));
        let third = products(arithmetic, &self.joint_w_c, &gc.inner_products(arithmetic, gc));
        let second = products(arithmetic, &self.joint_w_j, &gj.inner_products(arithmetic, gj));
        let outer = sums(arithmetic, &first, &third);
        let all = sums(arithmetic, &outer, &second);
        let compliance = filled(self.joint_pairs.len(), Single { bits: ONE_TEN_THOUSANDTH });
        sums(arithmetic, &all, &compliance)
    }

    /// The positions drawn towards the ranges of the joints.
    fn hold_angles<A: Arithmetic>(&self, arithmetic: &A, p: &Columns) -> (r: Columns)
        requires
            self.is_wired(),
            p@.has(self.n_particles as nat),
        ensures
            r@.has(self.n_particles as nat),
            forall|m: Operations| #[trigger]
                m.describes(*arithmetic) ==> r@ == m.hold_angles(*self, p@),
    {
        let (u, v) = self.arms(arithmetic, p);
        let cross = u.outer_products(arithmetic, &v);
        let dot = u.inner_products(arithmetic, &v);
        let angles = approx_atan2(arithmetic, &cross, &dot);
        let limited = self.limit_angles(&angles);
        let excess = differences(arithmetic, &angles, &limited);
        let least = Single { bits: ONE_MILLIONTH };
        let u_squared = floored_lanes(&u.inner_products(arithmetic, &u), least);
        let v_squared = floored_lanes(&v.inner_products(arithmetic, &v), least);
        let gp = u.perpendicular().shrunk(arithmetic, &u_squared);
        let gc = v.perpendicular().shrunk(arithmetic, &v_squared);
        let gj = gp.plus(arithmetic, &gc).reversed();
        let stiffness = self.stiffness(arithmetic, &gp, &gj, &gc);
        let lambda = quotients(arithmetic, &negated_lanes(&excess), &stiffness);
        let dp = gp.scaled(arithmetic, &lambda).scaled(arithmetic, &self.joint_w_p);
        let dj = gj.scaled(arithmetic, &lambda).scaled(arithmetic, &self.joint_w_j);
        let dc = gc.scaled(arithmetic, &lambda).scaled(arithmetic, &self.joint_w_c);
        let combined = dp.followed(&dj).followed(&dc);
        let total = combined.spread(arithmetic, &self.joint_map_combined, self.n_particles);
        p.plus(arithmetic, &total)
    }

    /// The positions drawn back by friction and raised out of the ground.
    fn hold_ground<A: Arithmetic>(
        &self,
        arithmetic: &A,
        start: &Columns,
        p: &Columns,
    ) -> (r: Columns)
        requires
            start@.has(self.n_particles as nat),
            p@.has(self.n_particles as nat),
        ensures
            r@.has(self.n_particles as nat),
            forall|m: Operations| #[trigger]
                m.describes(*arithmetic) ==> r@ == m.hold_ground(*self, start@, p@),
    {
        let moved = differences(arithmetic, &p.x, &start.x);
        let friction = filled(p.x.len(), self.config.friction);
        let pull = products(arithmetic, &negated_lanes(&moved), &friction);
        let back = held_by_friction(&p.y, pull);
        let up = lifts(&p.y);
        p.plus(arithmetic, &Columns { x: back, y: up })
    }

    /// Where the particles of one walker are after one step, and the velocities that lead there.
    fn step_one<A: Arithmetic>(
        &self,
        arithmetic: &A,
        positions: &Vec<Point>,
        velocities: &Vec<Point>,
        action: &Vec<Single>,
    ) -> (r: (Vec<Point>, Vec<Point>))
        requires
            self.wf(),
            positions@.len() == self.n_particles,
            velocities@.len() == self.n_particles,
            action@.len() == self.joint_pairs@.len(),
        ensures
            r.0@.len() == self.n_particles,
            r.1@.len() == self.n_particles,
            walked_one(
                *self,
                *arithmetic,
                field(positions@),
                field(velocities@),
                action@,
                field(r.0@),
                field(r.1@),
            ),
    {
        proof {
            self.lemma_is_wired();
        }
        let start = Columns::of(positions);
        let v = Columns::of(velocities);
        let mut p = self.predict(arithmetic, &start, &v, action);
        let ghost first = p@;
        let mut i: usize = 0;
        while i < self.config.constraint_iterations
            invariant
                self.is_wired(),
                start@.has(self.n_particles as nat),
                i <= self.config.constraint_iterations,
                p@.has(self.n_particles as nat),
                forall|m: Operations| #[trigger]
                    m.describes(*arithmetic) ==> p@ == m.rounds(*self, start@, first, i as nat),
            decreases self.config.constraint_iterations - i,
        {
            let held = self.hold_lengths(arithmetic, &p);
            let turned = self.hold_angles(arithmetic, &held);
            p = self.hold_ground(arithmetic, &start, &turned);
            i = i + 1;
        }
        let dt = filled(self.n_particles, self.config.time_step);
        let moved = p.minus(arithmetic, &start);
        let velocity = moved.shrunk(arithmetic, &dt);
        (p.points(), velocity.points())
    }
}

/// One step of one walker.
pub open spec fn walked_one<A: Arithmetic>(
    walker: Walker,
    arithmetic: A,
    p: Field,
    v: Field,
    action: Seq<Single>,
    next_p: Field,
    next_v: Field,
) -> bool {
    forall|m: Operations| #[trigger]
        m.describes(arithmetic) ==> {
            &&& next_p == m.arrival(walker, p, v, action)
            &&& next_v == m.velocity(walker, p, next_p)
        }
}

/// The state `next` is one step later than `state`: every walker is moved, its time goes on, and the
/// velocity that it is to walk at stays.
pub open spec fn walked<A: Arithmetic>(
    walker: Walker,
    arithmetic: A,
    state: PhysicsState,
    action: Seq<Vec<Single>>,
    next: PhysicsState,
) -> bool {
    &&& next.holds(state.positions@.len(), walker.n_particles as nat)
    &&& forall|b: int|
        0 <= b < state.positions@.len() ==> walked_one(
            walker,
            arithmetic,
            field(state.positions@[b]@),
            field(state.velocities@[b]@),
            action[b]@,
            field((#[trigger] next.positions@[b])@),
            field(next.velocities@[b]@),
        )
    &&& forall|m: Operations| #[trigger]
        m.describes(arithmetic) ==> next.time@ == m.sums(
            state.time@,
            repeated(walker.config.time_step, state.time@.len()),
        )
    &&& next.target_velocity == state.target_velocity
}

impl Walker {
    /// Moves a batch of walkers by one step.
    pub fn step<A: Arithmetic>(
        &self,
        arithmetic: &A,
        state: PhysicsState,
        action: &Vec<Vec<Single>>,
    ) -> (next: PhysicsState)
        requires
            self.wf(),
            state.holds(state.positions@.len(), self.n_particles as nat),
            is_grid(action@, state.positions@.len(), self.joint_pairs@.len()),
        ensures
            walked(*self, *arithmetic, state, action@, next),
    {
        let count = state.positions.len();
        let mut positions: Vec<Vec<Point>> = Vec::new();
        let mut velocities: Vec<Vec<Point>> = Vec::new();
        let mut b: usize = 0;
        while b < count
            invariant
                self.wf(),
                count == state.positions@.len(),
                state.holds(state.positions@.len(), self.n_particles as nat),
                is_grid(action@, state.positions@.len(), self.joint_pairs@.len()),
                b <= count,
                is_batch(positions@, b as nat, self.n_particles as nat),
                is_batch(velocities@, b as nat, self.n_particles as nat),
                forall|i: int|
                    0 <= i < b ==> walked_one(
                        *self,
                        *arithmetic,
                        field(state.positions@[i]@),
                        field(state.velocities@[i]@),
                        action@[i]@,
                        field((#[trigger] positions@[i])@),
                        field(velocities@[i]@),
                    ),
            decreases count - b,
        {
            assert(state.positions@[b as int]@.len() == self.n_particles);
            assert(state.velocities@[b as int]@.len() == self.n_particles);
            assert(action@[b as int]@.len() == self.joint_pairs@.len());
            let (row, speed) = self.step_one(
                arithmetic,
                &state.positions[b],
                &state.velocities[b],
                &action[b],
            );
            positions.push(row);
            velocities.push(speed);
            b = b + 1;
        }
        let dt = filled(state.time.len(), self.config.time_step);
        let time = sums(arithmetic, &state.time, &dt);
        PhysicsState { positions, velocities, time, target_velocity: state.target_velocity }
    }
}

/// The walkers of a batch do not influence each other, nor do their times and the velocities that they
/// are to walk at: where the positions, the velocities and the action of a row agree, so do the positions
/// and the velocities that a step leads to.
pub proof fn law_walkers_walk_alone<A: Arithmetic>(
    walker: Walker,
    arithmetic: A,
    m: Operations,
    state: PhysicsState,
    action: Seq<Vec<Single>>,
    next: PhysicsState,
    b: int,
    other: PhysicsState,
    other_action: Seq<Vec<Single>>,
    other_next: PhysicsState,
    c: int,
)
    requires
        m.describes(arithmetic),
        walked(walker, arithmetic, state, action, next),
        walked(walker, arithmetic, other, other_action, other_next),
        0 <= b < state.positions@.len(),
        0 <= c < other.positions@.len(),
        state.positions@[b]@ == other.positions@[c]@,
        state.velocities@[b]@ == other.velocities@[c]@,
        action[b]@ == other_action[c]@,
    ensures
        next.positions@[b]@ == other_next.positions@[c]@,
        next.velocities@[b]@ == other_next.velocities@[c]@,
{
    assert(next.positions@[b]@.len() == walker.n_particles);
    assert(other_next.positions@[c]@.len() == walker.n_particles);
    assert(next.velocities@[b]@.len() == walker.n_particles);
    assert(other_next.velocities@[c]@.len() == walker.n_particles);
    lemma_same_field(next.positions@[b]@, other_next.positions@[c]@);
    lemma_same_field(next.velocities@[b]@, other_next.velocities@[c]@);
}

/// Rows of points with the same columns are the same.
proof fn lemma_same_field(a: Seq<Point>, b: Seq<Point>)
    requires
        field(a) == field(b),
        a.len() == b.len(),
    ensures
        a == b,
{
    assert forall|k: int| 0 <= k < a.len() implies a[k] == b[k] by {
        assert(field(a).x[k] == a[k].x && field(b).x[k] == b[k].x);
        assert(field(a).y[k] == a[k].y && field(b).y[k] == b[k].y);
    }
    assert(a =~= b);
}

/// What is raised by its depth is no longer below the ground, and what is not below it stays so.
pub open spec fn lifts_to_the_ground(m: Operations) -> bool {
    &&& forall|y: Single|
        y.below(Single::of(ZERO)) ==> !(#[trigger] (m.sum)(y, y.unsigned())).below(Single::of(ZERO))
    &&& forall|y: Single|
        !y.below(Single::of(ZERO)) ==> !(#[trigger] (m.sum)(y, Single::of(ZERO))).below(
            Single::of(ZERO),
        )
}

/// With a sum that lifts a depth to the ground, no particle is left below the ground by a step with a
/// round of constraints, wherever it started.
pub proof fn law_no_particle_is_left_below_the_ground<A: Arithmetic>(
    walker: Walker,
    arithmetic: A,
    m: Operations,
    state: PhysicsState,
    action: Seq<Vec<Single>>,
    next: PhysicsState,
    b: int,
    k: int,
)
    requires
        m.describes(arithmetic),
        lifts_to_the_ground(m),
        walker.config.constraint_iterations > 0,
        walked(walker, arithmetic, state, action, next),
        0 <= b < state.positions@.len(),
        0 <= k < walker.n_particles,
    ensures
        !next.positions@[b]@[k].y.below(Single::of(ZERO)),
{
    let start = field(state.positions@[b]@);
    let first = m.predicted(walker, start, field(state.velocities@[b]@), action[b]@);
    let count = walker.config.constraint_iterations as nat;
    let before = m.rounds(walker, start, first, (count - 1) as nat);
    let p = m.hold_angles(walker, m.hold_lengths(walker, before));
    let end = field(next.positions@[b]@);
    assert(next.positions@[b]@.len() == walker.n_particles);
    assert(end == m.hold_ground(walker, start, p));
    assert(end.y.len() == p.y.len());
    assert(end.y[k] == (m.sum)(p.y[k], raised(p.y)[k]));
}

} // verus!
