//! The state of a batch of walkers, and where they start.

use crate::arithmetic::{cosine, difference, product, sine, sum, Arithmetic, Operations};
use crate::fidelity::{difference_is_exact, product_is_exact, sum_is_exact, unit};
use crate::lanes::{copied, filled, repeated};
use crate::numbers::{MINUS_RIGHT_ANGLE, PLUS_1_6};
use crate::single::{Single, ZERO};
use crate::walker::{
    law_edges_reach_every_particle_once, law_edges_start_where_their_parents_end, Walker,
};
use vstd::prelude::*;

verus! {

/// A point of the plane.
#[derive(Clone, Copy, Debug, PartialEq, Eq, Structural)]
pub struct Point {
    pub x: Single,
    pub y: Single,
}

/// The state of a batch of walkers, one entry to a walker.
#[derive(Debug)]
pub struct PhysicsState {
    /// The particles of each walker.
    pub positions: Vec<Vec<Point>>,
    pub velocities: Vec<Vec<Point>>,
    pub time: Vec<Single>,
    pub target_velocity: Vec<Single>,
}

/// The lists have one entry for each of `batch` walkers, of `particles` particles each.
pub open spec fn is_batch(points: Seq<Vec<Point>>, batch: nat, particles: nat) -> bool {
    &&& points.len() == batch
    &&& forall|b: int| 0 <= b < batch ==> (#[trigger] points[b])@.len() == particles
}

/// The origin of the plane.
pub open spec fn origin() -> Point {
    Point { x: Single::of(ZERO), y: Single::of(ZERO) }
}

/// Straight down, the angle that the first edge turns away from.
pub open spec fn straight_down() -> Single {
    Single::of(MINUS_RIGHT_ANGLE)
}

/// Where the first particle starts: at the height of a head.
pub open spec fn root_start() -> Point {
    Point { x: Single::of(ZERO), y: Single::of(PLUS_1_6) }
}

impl PhysicsState {
    /// A state of `batch` walkers of `particles` particles each.
    pub open spec fn holds(&self, batch: nat, particles: nat) -> bool {
        &&& is_batch(self.positions@, batch, particles)
        &&& is_batch(self.velocities@, batch, particles)
        &&& self.time@.len() == batch
        &&& self.target_velocity@.len() == batch
    }
}

/// Whether the lists have one entry for each of `batch` walkers, of `particles` particles each.
pub fn has_batch(points: &Vec<Vec<Point>>, batch: usize, particles: usize) -> (r: bool)
    ensures
        r == is_batch(points@, batch as nat, particles as nat),
{
    if points.len() != batch {
        return false;
    }
    let mut b: usize = 0;
    while b < batch
        invariant
            points@.len() == batch,
            b <= batch,
            forall|i: int| 0 <= i < b ==> (#[trigger] points@[i])@.len() == particles,
        decreases batch - b,
    {
        if points[b].len() != particles {
            assert(points@[b as int]@.len() != particles);
            return false;
        }
        b = b + 1;
    }
    true
}

impl PhysicsState {
    /// Whether the state is one of `batch` walkers of `particles` particles each.
    pub fn is_of(&self, batch: usize, particles: usize) -> (r: bool)
        ensures
            r == self.holds(batch as nat, particles as nat),
    {
        has_batch(&self.positions, batch, particles) && has_batch(
            &self.velocities,
            batch,
            particles,
        ) && self.time.len() == batch && self.target_velocity.len() == batch
    }
}

/// The same points, walker by walker.
pub open spec fn same_points(a: Seq<Vec<Point>>, b: Seq<Vec<Point>>) -> bool {
    a.len() == b.len() && forall|i: int| 0 <= i < a.len() ==> (#[trigger] a[i])@ == b[i]@
}

/// Copies the particles of a batch of walkers.
fn copied_points(points: &Vec<Vec<Point>>) -> (r: Vec<Vec<Point>>)
    ensures
        same_points(r@, points@),
{
    let mut r: Vec<Vec<Point>> = Vec::new();
    let mut b: usize = 0;
    while b < points.len()
        invariant
            b <= points@.len(),
            r@.len() == b,
            forall|i: int| 0 <= i < b ==> (#[trigger] r@[i])@ == points@[i]@,
        decreases points@.len() - b,
    {
        let mut row: Vec<Point> = Vec::new();
        let mut k: usize = 0;
        while k < points[b].len()
            invariant
                b < points@.len(),
                k <= points@[b as int]@.len(),
                row@ =~= points@[b as int]@.take(k as int),
            decreases points@[b as int]@.len() - k,
        {
            row.push(points[b][k]);
            k = k + 1;
        }
        assert(row@ =~= points@[b as int]@);
        r.push(row);
        b = b + 1;
    }
    r
}

impl Clone for PhysicsState {
    fn clone(&self) -> (r: Self)
        ensures
            same_points(r.positions@, self.positions@),
            same_points(r.velocities@, self.velocities@),
            r.time@ == self.time@,
            r.target_velocity@ == self.target_velocity@,
    {
        PhysicsState {
            positions: copied_points(&self.positions),
            velocities: copied_points(&self.velocities),
            time: copied(&self.time),
            target_velocity: copied(&self.target_velocity),
        }
    }
}

/// Particles at the origin, for a batch of walkers.
fn origins(batch: usize, particles: usize) -> (r: Vec<Vec<Point>>)
    ensures
        is_batch(r@, batch as nat, particles as nat),
        forall|b: int, k: int| 0 <= b < batch && 0 <= k < particles ==> #[trigger] r@[b]@[k] == origin(),
{
    let mut r: Vec<Vec<Point>> = Vec::new();
    let mut b: usize = 0;
    while b < batch
        invariant
            b <= batch,
            is_batch(r@, b as nat, particles as nat),
            forall|i: int, k: int|
                0 <= i < b && 0 <= k < particles ==> #[trigger] r@[i]@[k] == origin(),
        decreases batch - b,
    {
        let mut row: Vec<Point> = Vec::new();
        let mut k: usize = 0;
        while k < particles
            invariant
                k <= particles,
                row@.len() == k,
                forall|i: int| 0 <= i < k ==> #[trigger] row@[i] == origin(),
            decreases particles - k,
        {
            row.push(Point { x: Single { bits: ZERO }, y: Single { bits: ZERO } });
            k = k + 1;
        }
        r.push(row);
        b = b + 1;
    }
    r
}

impl Operations {
    /// The angle by which edge `i` turns away from its parent: between the ends of its range, at the
    /// place that `draw` says.
    pub open spec fn turn(self, walker: Walker, draw: Single, i: int) -> Single {
        let low = walker.init_eff_min@[i];
        let high = walker.init_eff_max@[i];
        (self.sum)((self.product)(draw, (self.difference)(high, low)), low)
    }

    /// The angle of edge `i`, which turns away from that of its parent, or from straight down.
    pub open spec fn edge_angle(self, walker: Walker, draws: Seq<Single>, i: int) -> Single
        decreases i,
    {
        let base = match walker.init_parent_edge@[i] {
            Some(parent) => if 0 <= parent < i {
                self.edge_angle(walker, draws, parent as int)
            } else {
                straight_down()
            },
            None => straight_down(),
        };
        (self.sum)(base, self.turn(walker, draws[i], i))
    }

    /// The end of an edge of the given length that starts at `from`.
    pub open spec fn end(self, from: Point, angle: Single, length: Single) -> Point {
        Point {
            x: (self.sum)(from.x, (self.product)((self.cosine)(angle), length)),
            y: (self.sum)(from.y, (self.product)((self.sine)(angle), length)),
        }
    }

    /// Where particle `k` starts: the first at the height of a head, every other one at the end of its
    /// edge.
    pub open spec fn start(self, walker: Walker, draws: Seq<Single>, k: int) -> Point
        decreases k,
    {
        if k <= 0 {
            root_start()
        } else {
            let from = walker.edges@[k - 1].0 as int;
            let spot = if from < k {
                self.start(walker, draws, from)
            } else {
                root_start()
            };
            self.end(spot, self.edge_angle(walker, draws, k - 1), walker.init_lengths@[k - 1])
        }
    }
}

/// The draws for walker `b`, one to an edge.
pub open spec fn draws_of(draws: Seq<Vec<Single>>, b: int) -> Seq<Single> {
    Seq::new(draws.len(), |i: int| draws[i]@[b])
}

/// There is a draw for each edge of every walker of the batch.
pub open spec fn has_draws(draws: Seq<Vec<Single>>, edges: nat, batch_size: nat) -> bool {
    &&& draws.len() == edges
    &&& forall|i: int| 0 <= i < edges ==> (#[trigger] draws[i])@.len() == batch_size
}

/// A batch of walkers at rest, with their heads in place.
pub open spec fn at_rest(state: PhysicsState, batch_size: nat, particles: nat) -> bool {
    &&& state.holds(batch_size, particles)
    &&& forall|b: int| 0 <= b < batch_size ==> (#[trigger] state.positions@[b])@[0] == root_start()
    &&& forall|b: int, k: int|
        0 <= b < batch_size && 0 <= k < particles ==> #[trigger] state.velocities@[b]@[k] == origin()
    &&& state.time@ == repeated(Single::of(ZERO), batch_size)
    &&& state.target_velocity@ == repeated(Single::of(ZERO), batch_size)
}

impl Walker {
    /// The particles of one walker, placed along its edges.
    fn placed<A: Arithmetic>(
        &self,
        arithmetic: &A,
        draws: &Vec<Vec<Single>>,
        b: usize,
        batch_size: usize,
    ) -> (r: Vec<Point>)
        requires
            self.wf(),
            has_draws(draws@, self.edges@.len(), batch_size as nat),
            b < batch_size,
        ensures
            r@.len() == self.n_particles,
            r@[0] == root_start(),
            forall|m: Operations, k: int| #[trigger]
                m.describes(*arithmetic) && 0 <= k < self.n_particles ==> #[trigger] r@[k] == m.start(
                    *self,
                    draws_of(draws@, b as int),
                    k,
                ),
    {
        let ghost mine = draws_of(draws@, b as int);
        let mut angles: Vec<Single> = Vec::new();
        let mut spots: Vec<Point> = Vec::new();
        spots.push(Point { x: Single { bits: ZERO }, y: Single { bits: PLUS_1_6 } });
        let n_edges = self.edges.len();
        let mut i: usize = 0;
        while i < n_edges
            invariant
                self.wf(),
                has_draws(draws@, self.edges@.len(), batch_size as nat),
                b < batch_size,
                mine == draws_of(draws@, b as int),
                n_edges == self.edges@.len(),
                i <= n_edges,
                angles@.len() == i,
                spots@.len() == i + 1,
                spots@[0] == root_start(),
                forall|m: Operations, k: int| #[trigger]
                    m.describes(*arithmetic) && 0 <= k < i ==> #[trigger] angles@[k] == m.edge_angle(
                        *self,
                        mine,
                        k,
                    ),
                forall|m: Operations, k: int| #[trigger]
                    m.describes(*arithmetic) && 0 <= k <= i ==> #[trigger] spots@[k] == m.start(
                        *self,
                        mine,
                        k,
                    ),
            decreases n_edges - i,
        {
            proof {
                law_edges_start_where_their_parents_end(*self, i as int);
                law_edges_reach_every_particle_once(*self, i + 1);
                assert(draws@[i as int]@.len() == batch_size);
                assert(mine[i as int] == draws@[i as int]@[b as int]);
            }
            let (low, high) = (self.init_eff_min[i], self.init_eff_max[i]);
            let base = match self.init_parent_edge[i] {
                Some(parent) => angles[parent],
                None => Single { bits: MINUS_RIGHT_ANGLE },
            };
            let width = difference(arithmetic, high, low);
            let part = product(arithmetic, draws[i][b], width);
            let offset = sum(arithmetic, part, low);
            let angle = sum(arithmetic, base, offset);
            let (length, from) = (self.init_lengths[i], spots[self.init_p1[i]]);
            let across = product(arithmetic, cosine(arithmetic, angle), length);
            let along = product(arithmetic, sine(arithmetic, angle), length);
            let spot = Point { x: sum(arithmetic, from.x, across), y: sum(arithmetic, from.y, along) };
            proof {
                assert forall|m: Operations| #[trigger] m.describes(*arithmetic) implies {
                    &&& angle == m.edge_angle(*self, mine, i as int)
                    &&& spot == m.start(*self, mine, i + 1)
                } by {
                    assert(spots@[self.edges@[i as int].0 as int] == m.start(
                        *self,
                        mine,
                        self.edges@[i as int].0 as int,
                    ));
                }
            }
            angles.push(angle);
            spots.push(spot);
            i = i + 1;
        }
        spots
    }

    /// A batch of walkers at rest, placed along their edges, each edge turned within its range by its
    /// draw.
    pub fn initial_state<A: Arithmetic>(
        &self,
        arithmetic: &A,
        batch_size: usize,
        draws: &Vec<Vec<Single>>,
    ) -> (state: PhysicsState)
        requires
            self.wf(),
            has_draws(draws@, self.edges@.len(), batch_size as nat),
        ensures
            at_rest(state, batch_size as nat, self.n_particles as nat),
            started(*self, *arithmetic, draws@, state),
    {
        let mut positions: Vec<Vec<Point>> = Vec::new();
        let mut b: usize = 0;
        while b < batch_size
            invariant
                self.wf(),
                has_draws(draws@, self.edges@.len(), batch_size as nat),
                b <= batch_size,
                is_batch(positions@, b as nat, self.n_particles as nat),
                forall|i: int| 0 <= i < b ==> (#[trigger] positions@[i])@[0] == root_start(),
                forall|m: Operations, i: int, k: int| #[trigger]
                    m.describes(*arithmetic) && 0 <= i < b && 0 <= k < self.n_particles
                        ==> #[trigger] positions@[i]@[k] == m.start(
                        *self,
                        draws_of(draws@, i),
                        k,
                    ),
            decreases batch_size - b,
        {
            positions.push(self.placed(arithmetic, draws, b, batch_size));
            b = b + 1;
        }
        PhysicsState {
            positions,
            velocities: origins(batch_size, self.n_particles),
            time: filled(batch_size, Single { bits: ZERO }),
            target_velocity: filled(batch_size, Single { bits: ZERO }),
        }
    }
}

/// Every particle is where the operations place it.
pub open spec fn started<A: Arithmetic>(
    walker: Walker,
    arithmetic: A,
    draws: Seq<Vec<Single>>,
    state: PhysicsState,
) -> bool {
    forall|m: Operations, b: int, k: int| #[trigger]
        m.describes(arithmetic) && 0 <= b < state.positions@.len() && 0 <= k < walker.n_particles
            ==> #[trigger] state.positions@[b]@[k] == m.start(walker, draws_of(draws, b), k)
}

/// Walkers do not influence where the others of their batch start: the same draws for a walker lead to
/// the same place.
pub proof fn law_walkers_start_alone<A: Arithmetic>(
    walker: Walker,
    arithmetic: A,
    m: Operations,
    draws: Seq<Vec<Single>>,
    state: PhysicsState,
    b: int,
    others: Seq<Vec<Single>>,
    other: PhysicsState,
    c: int,
)
    requires
        m.describes(arithmetic),
        started(walker, arithmetic, draws, state),
        started(walker, arithmetic, others, other),
        0 <= b < state.positions@.len(),
        0 <= c < other.positions@.len(),
        state.positions@[b]@.len() == walker.n_particles,
        other.positions@[c]@.len() == walker.n_particles,
        draws_of(draws, b) == draws_of(others, c),
    ensures
        state.positions@[b]@ == other.positions@[c]@,
{
    assert(state.positions@[b]@ =~= other.positions@[c]@);
}

/// No step that leads to the angle of an edge is rounded, given the angle that it turns away from.
pub open spec fn turns_exactly(m: Operations, base: Single, low: Single, high: Single, draw: Single) -> bool {
    let part = (m.product)(draw, (m.difference)(high, low));
    let turn = (m.sum)(part, low);
    &&& difference_is_exact(m, high, low)
    &&& product_is_exact(m, draw, (m.difference)(high, low))
    &&& sum_is_exact(m, part, low)
    &&& sum_is_exact(m, base, turn)
}

/// An edge turns away from the edge that it hangs on, the first from straight down, to the place in its range
/// that its draw says: by the least where the draw is zero, and by the greatest where it is one. Nothing is
/// rounded.
pub proof fn law_edges_turn_within_their_ranges(
    m: Operations,
    walker: Walker,
    draws: Seq<Single>,
    i: int,
)
    requires
        walker.wf(),
        0 <= i < walker.edges@.len(),
        ({
            let base = match walker.init_parent_edge@[i] {
                Some(parent) => m.edge_angle(walker, draws, parent as int),
                None => Single::of(MINUS_RIGHT_ANGLE),
            };
            turns_exactly(m, base, walker.init_eff_min@[i], walker.init_eff_max@[i], draws[i])
        }),
    ensures
        ({
            let base = match walker.init_parent_edge@[i] {
                Some(parent) => m.edge_angle(walker, draws, parent as int),
                None => Single::of(MINUS_RIGHT_ANGLE),
            };
            let (low, high) = (walker.init_eff_min@[i].value(), walker.init_eff_max@[i].value());
            (m.edge_angle(walker, draws, i).value() - base.value() - low) * unit()
                == draws[i].value() * (high - low)
        }),
{
    law_edges_start_where_their_parents_end(walker, i);
}

/// Where a walker starts: its first particle at a height of 1.6, and every other one at the end of its edge,
/// as far from the start of the edge as the edge is long, in the direction of its angle. Nothing is rounded.
pub proof fn law_particles_start_at_the_ends_of_their_edges<A: Arithmetic>(
    walker: Walker,
    arithmetic: A,
    m: Operations,
    draws: Seq<Vec<Single>>,
    state: PhysicsState,
    b: int,
    k: int,
)
    requires
        walker.wf(),
        m.describes(arithmetic),
        started(walker, arithmetic, draws, state),
        0 <= b < state.positions@.len(),
        0 < k < walker.n_particles,
        ({
            let from = state.positions@[b]@[walker.edges@[k - 1].0 as int];
            let length = walker.edges@[k - 1].2;
            let angle = m.edge_angle(walker, draws_of(draws, b), k - 1);
            let (across, along) = (
                (m.product)((m.cosine)(angle), length),
                (m.product)((m.sine)(angle), length),
            );
            &&& product_is_exact(m, (m.cosine)(angle), length)
            &&& product_is_exact(m, (m.sine)(angle), length)
            &&& sum_is_exact(m, from.x, across)
            &&& sum_is_exact(m, from.y, along)
        }),
    ensures
        ({
            let (from, to) = (
                state.positions@[b]@[walker.edges@[k - 1].0 as int],
                state.positions@[b]@[k],
            );
            let length = walker.edges@[k - 1].2.value();
            let angle = m.edge_angle(walker, draws_of(draws, b), k - 1);
            &&& (to.x.value() - from.x.value()) * unit() == (m.cosine)(angle).value() * length
            &&& (to.y.value() - from.y.value()) * unit() == (m.sine)(angle).value() * length
            &&& state.positions@[b]@[0].x.value() == 0
            &&& state.positions@[b]@[0].y.bits == PLUS_1_6
        }),
{
    law_edges_reach_every_particle_once(walker, k);
    let from = walker.edges@[k - 1].0 as int;
    let mine = draws_of(draws, b);
    assert(state.positions@[b]@[from] == m.start(walker, mine, from));
    assert(state.positions@[b]@[k] == m.start(walker, mine, k));
    assert(state.positions@[b]@[0] == m.start(walker, mine, 0));
    assert(walker.init_lengths@[k - 1] == walker.edges@[k - 1].2) by {
        assert(walker.edges@[k - 1].2 == walker.order()[k - 1].segment.length);
    }
    assert(Single::of(ZERO).value() == 0);
}

/// A walker that was just placed is at rest: nothing moves, no time has passed, and it has nowhere to go; its
/// head is 1.6 high.
pub proof fn law_placed_walkers_are_at_rest(
    state: PhysicsState,
    batch_size: nat,
    particles: nat,
    b: int,
    k: int,
)
    requires
        at_rest(state, batch_size, particles),
        0 <= b < batch_size,
        0 <= k < particles,
    ensures
        state.positions@.len() == batch_size,
        state.positions@[b]@.len() == particles,
        state.positions@[b]@[0].x.value() == 0,
        state.positions@[b]@[0].y.bits == PLUS_1_6,
        state.velocities@[b]@[k].x.value() == 0,
        state.velocities@[b]@[k].y.value() == 0,
        state.time@[b].value() == 0,
        state.target_velocity@[b].value() == 0,
{
    assert(Single::of(ZERO).value() == 0);
    assert(state.positions@[b]@[0] == root_start());
}

} // verus!
