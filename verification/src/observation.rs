//! What the policy sees of a walker.

use crate::arithmetic::{difference, products, quotient, total, Arithmetic, Operations};
use crate::fidelity::{
    finite, product_is_exact, quotient_is_exact, unit, values_of, values_total,
};
use crate::field::{field, Columns};
use crate::momentum::weighted_total;
use crate::motion::{is_batch, PhysicsState, Point};
use crate::single::{Single, ZERO};
use crate::walker::Walker;
use vstd::prelude::*;

verus! {

/// The coordinates of points, one after the other.
pub open spec fn flat(points: Seq<Point>) -> Seq<Single> {
    Seq::new(
        2 * points.len(),
        |i: int|
            if i % 2 == 0 {
                points[i / 2].x
            } else {
                points[i / 2].y
            },
    )
}

/// The places of the particles, then their velocities, with zero in place of what is not a number.
pub open spec fn observed(places: Seq<Point>, velocities: Seq<Point>) -> Seq<Single> {
    (flat(places) + flat(velocities)).map_values(|x: Single| x.cleaned())
}

impl Operations {
    /// A coordinate of the center of mass, given those of the particles.
    pub open spec fn center(self, walker: Walker, column: Seq<Single>) -> Single {
        (self.quotient)(
            (self.total)(self.products(column, walker.masses@)),
            (self.total)(walker.masses@),
        )
    }

    /// The center of mass of the particles.
    pub open spec fn center_of_mass(self, walker: Walker, particles: Seq<Point>) -> Point {
        Point {
            x: self.center(walker, field(particles).x),
            y: self.center(walker, field(particles).y),
        }
    }

    /// The particles as seen from their center of mass: the abscissas relative to it, the ordinates as
    /// they are.
    pub open spec fn relative(self, walker: Walker, particles: Seq<Point>) -> Seq<Point> {
        Seq::new(
            particles.len(),
            |k: int|
                Point {
                    x: (self.difference)(
                        particles[k].x,
                        self.center_of_mass(walker, particles).x,
                    ),
                    y: particles[k].y,
                },
        )
    }
}

/// The row is what is seen of a walker: four numbers for each particle, the height of every particle as
/// it is, and the rest as the operations give it.
pub open spec fn sees<A: Arithmetic>(
    walker: Walker,
    arithmetic: A,
    particles: Seq<Point>,
    velocities: Seq<Point>,
    row: Seq<Single>,
) -> bool {
    &&& row.len() == 4 * particles.len()
    &&& forall|i: int| 0 <= i < row.len() ==> !(#[trigger] row[i]).nan()
    &&& forall|k: int|
        0 <= k < particles.len() ==> row[2 * k + 1] == (#[trigger] particles[k]).y.cleaned()
    &&& forall|m: Operations| #[trigger]
        m.describes(arithmetic) ==> row == observed(m.relative(walker, particles), velocities)
}

/// Row by row, the observation is what is seen of the state.
pub open spec fn shows<A: Arithmetic>(
    walker: Walker,
    arithmetic: A,
    state: PhysicsState,
    observation: Seq<Vec<Single>>,
) -> bool {
    &&& observation.len() == state.positions@.len()
    &&& forall|b: int|
        0 <= b < observation.len() ==> sees(
            walker,
            arithmetic,
            state.positions@[b]@,
            state.velocities@[b]@,
            (#[trigger] observation[b])@,
        )
}

/// Appends the coordinates of points to a row.
fn append_points(row: &mut Vec<Single>, points: &Vec<Point>)
    requires
        old(row)@.len() + 2 * points@.len() <= usize::MAX,
    ensures
        final(row)@ == old(row)@ + flat(points@).map_values(|x: Single| x.cleaned()),
{
    let ghost start = row@;
    let mut k: usize = 0;
    proof {
        assert(start =~= start + flat(points@.take(0)).map_values(|x: Single| x.cleaned()));
    }
    while k < points.len()
        invariant
            k <= points@.len(),
            row@ == start + flat(points@.take(k as int)).map_values(|x: Single| x.cleaned()),
        decreases points@.len() - k,
    {
        row.push(points[k].x.sanitize());
        row.push(points[k].y.sanitize());
        k = k + 1;
        assert(row@ =~= start + flat(points@.take(k as int)).map_values(|x: Single| x.cleaned()));
    }
    assert(points@.take(k as int) =~= points@);
}

impl Walker {
    /// A coordinate of the center of mass.
    fn center<A: Arithmetic>(&self, arithmetic: &A, column: &Vec<Single>) -> (r: Single)
        requires
            self.masses@.len() == column@.len(),
        ensures
            forall|m: Operations| #[trigger]
                m.describes(*arithmetic) ==> r == m.center(*self, column@),
    {
        let weighted = products(arithmetic, column, &self.masses);
        quotient(arithmetic, total(arithmetic, &weighted), total(arithmetic, &self.masses))
    }

    /// The center of mass of each walker of a batch.
    pub fn center_of_mass<A: Arithmetic>(
        &self,
        arithmetic: &A,
        positions: &Vec<Vec<Point>>,
    ) -> (r: Vec<Point>)
        requires
            self.wf(),
            is_batch(positions@, positions@.len(), self.n_particles as nat),
        ensures
            r@.len() == positions@.len(),
            forall|m: Operations, b: int| #[trigger]
                m.describes(*arithmetic) && 0 <= b < r@.len() ==> #[trigger] r@[b]
                    == m.center_of_mass(*self, positions@[b]@),
    {
        let mut r: Vec<Point> = Vec::new();
        let mut b: usize = 0;
        while b < positions.len()
            invariant
                self.wf(),
                is_batch(positions@, positions@.len(), self.n_particles as nat),
                b <= positions@.len(),
                r@.len() == b,
                forall|m: Operations, i: int| #[trigger]
                    m.describes(*arithmetic) && 0 <= i < b ==> #[trigger] r@[i] == m.center_of_mass(
                        *self,
                        positions@[i]@,
                    ),
            decreases positions@.len() - b,
        {
            assert(positions@[b as int]@.len() == self.n_particles);
            let columns = Columns::of(&positions[b]);
            let center = Point {
                x: self.center(arithmetic, &columns.x),
                y: self.center(arithmetic, &columns.y),
            };
            r.push(center);
            b = b + 1;
        }
        r
    }

    /// What is seen of one walker, given the abscissa of its center of mass.
    fn see<A: Arithmetic>(
        &self,
        arithmetic: &A,
        particles: &Vec<Point>,
        velocities: &Vec<Point>,
        center_x: Single,
    ) -> (row: Vec<Single>)
        requires
            4 * self.n_particles <= usize::MAX,
            particles@.len() == self.n_particles,
            velocities@.len() == self.n_particles,
            forall|m: Operations| #[trigger]
                m.describes(*arithmetic) ==> center_x == m.center_of_mass(*self, particles@).x,
        ensures
            sees(*self, *arithmetic, particles@, velocities@, row@),
    {
        let mut places: Vec<Point> = Vec::new();
        let mut k: usize = 0;
        while k < particles.len()
            invariant
                forall|m: Operations| #[trigger]
                    m.describes(*arithmetic) ==> center_x == m.center_of_mass(*self, particles@).x,
                k <= particles@.len(),
                places@.len() == k,
                forall|i: int| 0 <= i < k ==> (#[trigger] places@[i]).y == particles@[i].y,
                forall|m: Operations, i: int| #[trigger]
                    m.describes(*arithmetic) && 0 <= i < k ==> #[trigger] places@[i] == m.relative(
                        *self,
                        particles@,
                    )[i],
            decreases particles@.len() - k,
        {
            let x = difference(arithmetic, particles[k].x, center_x);
            places.push(Point { x, y: particles[k].y });
            k = k + 1;
        }
        let mut row: Vec<Single> = Vec::new();
        append_points(&mut row, &places);
        append_points(&mut row, velocities);
        proof {
            assert(row@ =~= observed(places@, velocities@));
            law_observations_are_numbers(places@, velocities@);
            assert forall|i: int| 0 <= i < particles@.len() implies row@[2 * i + 1]
                == (#[trigger] particles@[i]).y.cleaned() by {
                law_observations_list_particles(places@, velocities@, i);
            }
            assert forall|m: Operations| #[trigger] m.describes(*arithmetic) implies row@
                == observed(m.relative(*self, particles@), velocities@) by {
                assert(places@ =~= m.relative(*self, particles@));
            }
        }
        row
    }

    /// The observation of each walker of a batch: the places of its particles, the abscissas relative to
    /// the center of mass, then their velocities.
    pub fn get_observation<A: Arithmetic>(&self, arithmetic: &A, state: &PhysicsState) -> (r: Vec<
        Vec<Single>,
    >)
        requires
            self.wf(),
            state.holds(state.positions@.len(), self.n_particles as nat),
            4 * self.n_particles <= usize::MAX,
        ensures
            shows(*self, *arithmetic, *state, r@),
    {
        let centers = self.center_of_mass(arithmetic, &state.positions);
        let mut r: Vec<Vec<Single>> = Vec::new();
        let mut b: usize = 0;
        while b < state.positions.len()
            invariant
                state.holds(state.positions@.len(), self.n_particles as nat),
                4 * self.n_particles <= usize::MAX,
                centers@.len() == state.positions@.len(),
                forall|m: Operations, i: int| #[trigger]
                    m.describes(*arithmetic) && 0 <= i < centers@.len() ==> #[trigger] centers@[i]
                        == m.center_of_mass(*self, state.positions@[i]@),
                b <= state.positions@.len(),
                r@.len() == b,
                forall|i: int|
                    0 <= i < b ==> sees(
                        *self,
                        *arithmetic,
                        state.positions@[i]@,
                        state.velocities@[i]@,
                        (#[trigger] r@[i])@,
                    ),
            decreases state.positions@.len() - b,
        {
            assert(state.positions@[b as int]@.len() == self.n_particles);
            assert(state.velocities@[b as int]@.len() == self.n_particles);
            let row = self.see(
                arithmetic,
                &state.positions[b],
                &state.velocities[b],
                centers[b].x,
            );
            r.push(row);
            b = b + 1;
        }
        r
    }
}

/// An observation has four numbers for each particle, and nothing in it is not a number.
pub proof fn law_observations_are_numbers(places: Seq<Point>, velocities: Seq<Point>)
    requires
        places.len() == velocities.len(),
    ensures
        observed(places, velocities).len() == 4 * places.len(),
        forall|i: int|
            0 <= i < observed(places, velocities).len() ==> !(#[trigger] observed(
                places,
                velocities,
            )[i]).nan(),
{
}

/// Where a particle stands in an observation.
pub proof fn law_observations_list_particles(places: Seq<Point>, velocities: Seq<Point>, k: int)
    requires
        places.len() == velocities.len(),
        0 <= k < places.len(),
    ensures
        observed(places, velocities)[2 * k] == places[k].x.cleaned(),
        observed(places, velocities)[2 * k + 1] == places[k].y.cleaned(),
        observed(places, velocities)[2 * places.len() + 2 * k] == velocities[k].x.cleaned(),
        observed(places, velocities)[2 * places.len() + 2 * k + 1] == velocities[k].y.cleaned(),
{
}

/// No step that leads to a coordinate of the center of mass is rounded.
pub open spec fn centers_exactly(m: Operations, walker: Walker, column: Seq<Single>) -> bool {
    let moments = m.products(column, walker.masses@);
    let mass = (m.total)(walker.masses@);
    &&& forall|k: int|
        0 <= k < column.len() ==> product_is_exact(m, #[trigger] column[k], walker.masses@[k])
    &&& (m.total)(moments).value() == values_total(moments)
    &&& mass.value() == values_total(walker.masses@)
    &&& mass.value() != 0
    &&& quotient_is_exact(m, (m.total)(moments), mass)
}

/// Moving all numbers by the same adds as much times all weights.
proof fn lemma_moments_shift(
    numbers: Seq<Single>,
    shifted: Seq<Single>,
    weights: Seq<Single>,
    moments: Seq<Single>,
    shifted_moments: Seq<Single>,
    by: int,
)
    requires
        numbers.len() == shifted.len() == weights.len() == moments.len() == shifted_moments.len(),
        forall|k: int|
            0 <= k < numbers.len() ==> {
                &&& (#[trigger] moments[k]).value() * unit() == numbers[k].value()
                    * weights[k].value()
                &&& shifted_moments[k].value() * unit() == shifted[k].value() * weights[k].value()
                &&& shifted[k].value() == numbers[k].value() + by
            },
    ensures
        values_total(shifted_moments) * unit() == values_total(moments) * unit() + by
            * values_total(weights),
    decreases numbers.len(),
{
    if numbers.len() == 0 {
        assert(by * 0 == 0) by (nonlinear_arith);
    } else {
        let last = numbers.len() - 1;
        lemma_moments_shift(
            numbers.drop_last(),
            shifted.drop_last(),
            weights.drop_last(),
            moments.drop_last(),
            shifted_moments.drop_last(),
            by,
        );
        let u = unit();
        let (a, b) = (values_total(shifted_moments.drop_last()), shifted_moments[last].value());
        let (c, d) = (values_total(moments.drop_last()), moments[last].value());
        let (e, f) = (values_total(weights.drop_last()), weights[last].value());
        let x = numbers[last].value();
        assert(moments[last].value() * unit() == numbers[last].value() * weights[last].value());
        assert((x + by) * f == x * f + by * f) by (nonlinear_arith);
        assert((a + b) * u == a * u + b * u) by (nonlinear_arith);
        assert((c + d) * u == c * u + d * u) by (nonlinear_arith);
        assert(by * (e + f) == by * e + by * f) by (nonlinear_arith);
    }
}

/// The center of mass moves along with the particles, where nothing is rounded.
pub proof fn law_the_center_moves_along(
    m: Operations,
    walker: Walker,
    column: Seq<Single>,
    shifted: Seq<Single>,
    by: int,
)
    requires
        column.len() == shifted.len() == walker.masses@.len(),
        forall|k: int|
            0 <= k < column.len() ==> shifted[k].value() == (#[trigger] column[k]).value() + by,
        centers_exactly(m, walker, column),
        centers_exactly(m, walker, shifted),
    ensures
        m.center(walker, shifted).value() == m.center(walker, column).value() + by,
{
    let weights = walker.masses@;
    let (moments, shifted_moments) = (m.products(column, weights), m.products(shifted, weights));
    assert forall|k: int| 0 <= k < column.len() implies {
        &&& (#[trigger] moments[k]).value() * unit() == column[k].value() * weights[k].value()
        &&& shifted_moments[k].value() * unit() == shifted[k].value() * weights[k].value()
        &&& shifted[k].value() == column[k].value() + by
    } by {
        assert(product_is_exact(m, column[k], weights[k]));
        assert(product_is_exact(m, shifted[k], weights[k]));
    }
    lemma_moments_shift(column, shifted, weights, moments, shifted_moments, by);
    let mass = (m.total)(weights).value();
    let (a, b) = (m.center(walker, shifted).value(), m.center(walker, column).value());
    assert((b + by) * mass == b * mass + by * mass) by (nonlinear_arith);
    let c = b + by;
    assert(a == c) by (nonlinear_arith)
        requires
            mass != 0,
            a * mass == c * mass,
    ;
}

/// The abscissas from the center of mass are finite, and not rounded.
pub open spec fn sees_exactly(m: Operations, walker: Walker, particles: Seq<Point>) -> bool {
    let center = m.center_of_mass(walker, particles).x;
    forall|k: int|
        0 <= k < particles.len() ==> {
            let apart = (m.difference)((#[trigger] particles[k]).x, center);
            finite(apart) && apart.value() == particles[k].x.value() - center.value()
        }
}

/// Walkers that stand alike, the one further along than the other, are seen alike, where nothing is
/// rounded.
pub proof fn law_walkers_are_seen_alike_everywhere<A: Arithmetic>(
    walker: Walker,
    arithmetic: A,
    m: Operations,
    state: PhysicsState,
    observation: Seq<Vec<Single>>,
    b: int,
    other_state: PhysicsState,
    other_observation: Seq<Vec<Single>>,
    c: int,
    by: int,
    i: int,
)
    requires
        m.describes(arithmetic),
        shows(walker, arithmetic, state, observation),
        shows(walker, arithmetic, other_state, other_observation),
        0 <= b < observation.len(),
        0 <= c < other_observation.len(),
        ({
            let (particles, others) = (state.positions@[b]@, other_state.positions@[c]@);
            &&& particles.len() == others.len() == walker.masses@.len()
            &&& state.velocities@[b]@ == other_state.velocities@[c]@
            &&& state.velocities@[b]@.len() == particles.len()
            &&& forall|k: int|
                0 <= k < particles.len() ==> {
                    &&& others[k].x.value() == (#[trigger] particles[k]).x.value() + by
                    &&& others[k].y == particles[k].y
                }
            &&& centers_exactly(m, walker, field(particles).x)
            &&& centers_exactly(m, walker, field(others).x)
            &&& sees_exactly(m, walker, particles)
            &&& sees_exactly(m, walker, others)
        }),
        0 <= i < observation[b]@.len(),
    ensures
        other_observation[c]@[i].value() == observation[b]@[i].value(),
{
    let (particles, others) = (state.positions@[b]@, other_state.positions@[c]@);
    let velocities = state.velocities@[b]@;
    law_the_center_moves_along(m, walker, field(particles).x, field(others).x, by);
    let (seen, other) = (m.relative(walker, particles), m.relative(walker, others));
    assert(sees(walker, arithmetic, particles, velocities, observation[b]@));
    assert(sees(walker, arithmetic, others, velocities, other_observation[c]@));
    if i < 2 * particles.len() {
        let k = i / 2;
        assert(others[k].x.value() == particles[k].x.value() + by);
        assert(!seen[k].x.nan() && !other[k].x.nan());
        assert(other[k].x.value() == seen[k].x.value());
        assert(other[k].y == seen[k].y);
    }
}

/// Where nothing is rounded, the center of mass times all masses together is the places of the particles
/// together, each by its mass.
pub proof fn law_the_center_weighs_the_particles(m: Operations, walker: Walker, column: Seq<Single>)
    requires
        column.len() == walker.masses@.len(),
        centers_exactly(m, walker, column),
    ensures
        m.center(walker, column).value() * values_total(walker.masses@) == weighted_total(
            values_of(walker.masses@),
            values_of(column),
            column.len() as int,
        ),
{
    let weights = walker.masses@;
    let moments = m.products(column, weights);
    assert forall|k: int| 0 <= k < column.len() implies (#[trigger] moments[k]).value() * unit()
        == column[k].value() * weights[k].value() by {
        assert(product_is_exact(m, column[k], weights[k]));
    }
    lemma_moments_total(column, weights, moments, column.len() as int);
    assert(moments.take(column.len() as int) =~= moments);
}

proof fn lemma_moments_total(
    column: Seq<Single>,
    weights: Seq<Single>,
    moments: Seq<Single>,
    count: int,
)
    requires
        column.len() == weights.len() == moments.len(),
        0 <= count <= column.len(),
        forall|k: int|
            0 <= k < column.len() ==> (#[trigger] moments[k]).value() * unit() == column[k].value()
                * weights[k].value(),
    ensures
        values_total(moments.take(count)) * unit() == weighted_total(
            values_of(weights),
            values_of(column),
            count,
        ),
    decreases count,
{
    if count > 0 {
        lemma_moments_total(column, weights, moments, count - 1);
        assert(moments.take(count).drop_last() =~= moments.take(count - 1));
        let (a, b, u) = (
            values_total(moments.take(count - 1)),
            moments[count - 1].value(),
            unit(),
        );
        let (x, w) = (column[count - 1].value(), weights[count - 1].value());
        assert((a + b) * u == a * u + b * u) by (nonlinear_arith);
        assert(x * w == w * x) by (nonlinear_arith);
    } else {
        assert(0 * unit() == 0) by (nonlinear_arith);
    }
}

/// What is seen of particle `k`: how far it stands ahead of the center of mass, where that is not rounded,
/// how high it stands, and its velocity, with zero in place of what is not a number.
pub proof fn law_what_is_seen_of_a_particle<A: Arithmetic>(
    walker: Walker,
    arithmetic: A,
    m: Operations,
    state: PhysicsState,
    observation: Seq<Vec<Single>>,
    b: int,
    k: int,
)
    requires
        m.describes(arithmetic),
        shows(walker, arithmetic, state, observation),
        0 <= b < observation.len(),
        state.velocities@[b]@.len() == state.positions@[b]@.len(),
        0 <= k < state.positions@[b]@.len(),
        sees_exactly(m, walker, state.positions@[b]@),
    ensures
        ({
            let (place, velocity) = (state.positions@[b]@[k], state.velocities@[b]@[k]);
            let (row, n) = (observation[b]@, state.positions@[b]@.len() as int);
            let center = m.center_of_mass(walker, state.positions@[b]@).x;
            &&& row.len() == 4 * n
            &&& row[2 * k].value() == place.x.value() - center.value()
            &&& place.y.nan() ==> row[2 * k + 1].value() == 0
            &&& !place.y.nan() ==> row[2 * k + 1] == place.y
            &&& velocity.x.nan() ==> row[2 * n + 2 * k].value() == 0
            &&& !velocity.x.nan() ==> row[2 * n + 2 * k] == velocity.x
            &&& velocity.y.nan() ==> row[2 * n + 2 * k + 1].value() == 0
            &&& !velocity.y.nan() ==> row[2 * n + 2 * k + 1] == velocity.y
        }),
{
    let (particles, velocities) = (state.positions@[b]@, state.velocities@[b]@);
    assert(sees(walker, arithmetic, particles, velocities, observation[b]@));
    law_observations_list_particles(m.relative(walker, particles), velocities, k);
    let center = m.center_of_mass(walker, particles).x;
    assert(finite((m.difference)(particles[k].x, center)));
    assert(Single::of(ZERO).value() == 0);
}

/// An observation shows neither the time nor the target: walkers whose particles stand and move alike are
/// seen alike, whatever the time and the target of either.
pub proof fn law_observations_hide_time_and_target<A: Arithmetic>(
    walker: Walker,
    arithmetic: A,
    m: Operations,
    state: PhysicsState,
    observation: Seq<Vec<Single>>,
    b: int,
    other_state: PhysicsState,
    other_observation: Seq<Vec<Single>>,
    c: int,
)
    requires
        m.describes(arithmetic),
        shows(walker, arithmetic, state, observation),
        shows(walker, arithmetic, other_state, other_observation),
        0 <= b < observation.len(),
        0 <= c < other_observation.len(),
        state.positions@[b]@ == other_state.positions@[c]@,
        state.velocities@[b]@ == other_state.velocities@[c]@,
    ensures
        observation[b]@ == other_observation[c]@,
{
}

} // verus!
