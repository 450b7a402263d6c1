//! What the forces and the constraints do to the particles of a walker in a step.
//!
//! The laws here are about what holds where nothing is rounded: they ask of the operations that they are
//! exact on the numbers that occur, and count in the values of these.

use crate::arithmetic::{Arithmetic, Operations};
use crate::fidelity::{
    difference_is_exact, lemma_cancel, lemma_unit_is_positive, product_is_exact, quotient_is_exact,
    root_is_exact, sum_is_exact, unit, values_of,
};
use crate::field::{field, matrix_row, Field};
use crate::incidence::{law_map_adds_to_positions, share};
use crate::math::is_odd;
use crate::momentum::{lemma_row_is_row_total, signed_total};
use crate::motion::PhysicsState;
use crate::numbers::{ONE_HUNDREDTH, ONE_MILLIONTH, ONE_TEN_THOUSANDTH};
use crate::physics::WalkerConfig;
use crate::single::{
    law_drawn_numbers_stay_or_go_to_the_nearer_end, law_negation_turns_the_value,
    law_unsigned_numbers_keep_their_distance, lemma_key_orders, Single, ZERO,
};
use crate::step::{walked, walked_one};
use crate::walker::{
    law_edges_reach_every_particle_once, law_indices_name_particles, law_joints_lie_between_edges,
    Walker,
};
use vstd::prelude::*;

verus! {

/// The greater of two.
pub open spec fn greater(a: int, b: int) -> int {
    if a < b {
        b
    } else {
        a
    }
}

/// `length` is that of a vector with these coordinates, and no less than a millionth.
pub open spec fn is_length(x: int, y: int, length: int) -> bool {
    exists|norm: int|
        norm >= 0 && #[trigger] (norm * norm) == x * x + y * y && length == greater(
            norm,
            Single::of(ONE_MILLIONTH).value(),
        )
}

/// No step that leads to the length of a vector is rounded.
pub open spec fn measures_vector_exactly(m: Operations, x: Single, y: Single) -> bool {
    let (xx, yy) = ((m.product)(x, x), (m.product)(y, y));
    let square = (m.sum)(xx, yy);
    &&& product_is_exact(m, x, x)
    &&& product_is_exact(m, y, y)
    &&& sum_is_exact(m, xx, yy)
    &&& root_is_exact(m, square)
    &&& !(m.root)(square).nan()
}

/// The length of a vector, where nothing is rounded: the root of the squares of its coordinates, and no less
/// than a millionth.
pub proof fn law_lengths_are_roots_of_squares(m: Operations, a: Field, i: int)
    requires
        a.has(a.x.len()),
        0 <= i < a.x.len(),
        measures_vector_exactly(m, a.x[i], a.y[i]),
    ensures
        is_length(a.x[i].value(), a.y[i].value(), m.lengths(a)[i].value()),
        m.lengths(a)[i].value() > 0,
{
    let (x, y) = (a.x[i], a.y[i]);
    let (xx, yy) = ((m.product)(x, x), (m.product)(y, y));
    let norm = (m.root)((m.sum)(xx, yy));
    let u = unit();
    assert((xx.value() + yy.value()) * u == xx.value() * u + yy.value() * u) by (nonlinear_arith);
    assert(norm.value() * norm.value() == x.value() * x.value() + y.value() * y.value());
    lemma_key_orders(Single::of(ZERO), Single::of(ONE_MILLIONTH));
    assert(Single::of(ZERO).value() == 0);
}

/// No step that leads to the force at the end of an edge is rounded.
pub open spec fn pushes_exactly(
    m: Operations,
    x: Single,
    y: Single,
    length: Single,
    torque: Single,
    greatest: Single,
    norm: Single,
) -> bool {
    let (across, along) = ((m.quotient)(y, norm), (m.quotient)(x, norm));
    let part = (m.quotient)(torque, length);
    let strength = (m.product)(part, greatest);
    &&& measures_vector_exactly(m, x, y)
    &&& quotient_is_exact(m, y, norm)
    &&& quotient_is_exact(m, x, norm)
    &&& quotient_is_exact(m, torque, length)
    &&& product_is_exact(m, part, greatest)
    &&& product_is_exact(m, across.negated(), strength)
    &&& product_is_exact(m, along, strength)
}

proof fn lemma_force(
    u: int,
    norm: int,
    length: int,
    edge: int,
    torque: int,
    greatest: int,
    direction: int,
    part: int,
    strength: int,
    force: int,
)
    requires
        u > 0,
        direction * norm == edge * u,
        part * length == torque * u,
        strength * u == part * greatest,
        force * u == direction * strength,
    ensures
        force * norm * length == edge * (torque * greatest),
{
    assert(force * norm == edge * strength) by {
        assert((force * norm) * u == (force * u) * norm) by (nonlinear_arith);
        assert((direction * strength) * norm == (direction * norm) * strength) by (nonlinear_arith);
        assert((edge * u) * strength == (edge * strength) * u) by (nonlinear_arith);
        lemma_cancel(force * norm, edge * strength, u);
    }
    assert(strength * length == torque * greatest) by {
        assert((strength * length) * u == (strength * u) * length) by (nonlinear_arith);
        assert((part * greatest) * length == (part * length) * greatest) by (nonlinear_arith);
        assert((torque * u) * greatest == (torque * greatest) * u) by (nonlinear_arith);
        lemma_cancel(strength * length, torque * greatest, u);
    }
    assert((edge * strength) * length == edge * (strength * length)) by (nonlinear_arith);
}

/// The force of a torque at the end of an edge stands at a right angle to it and is proportional to the
/// torque: where nothing is rounded, the force times the length of the edge is the torque times the
/// greatest, for every torque, across the direction of the edge.
pub proof fn law_forces_times_lengths_are_torques(
    m: Operations,
    edges: Field,
    torques: Seq<Single>,
    lengths: Seq<Single>,
    greatest: Seq<Single>,
    i: int,
    norm: Single,
)
    requires
        edges.has(torques.len()),
        0 <= i < torques.len(),
        is_length(edges.x[i].value(), edges.y[i].value(), norm.value()),
        norm == m.lengths(edges)[i],
        pushes_exactly(
            m,
            edges.x[i],
            edges.y[i],
            lengths[i],
            torques[i],
            greatest[i],
            norm,
        ),
    ensures
        ({
            let force = m.end_forces(edges, torques, lengths, greatest);
            let torque = torques[i].value() * greatest[i].value();
            &&& force.x[i].value() * norm.value() * lengths[i].value() == -edges.y[i].value()
                * torque
            &&& force.y[i].value() * norm.value() * lengths[i].value() == edges.x[i].value()
                * torque
        }),
{
    let (x, y, u, n) = (edges.x[i].value(), edges.y[i].value(), unit(), norm.value());
    let (across, along) = ((m.quotient)(edges.y[i], norm), (m.quotient)(edges.x[i], norm));
    let part = (m.quotient)(torques[i], lengths[i]);
    let strength = (m.product)(part, greatest[i]);
    lemma_unit_is_positive();
    law_negation_turns_the_value(across);
    let c = across.value();
    assert(-c * n == -y * u) by (nonlinear_arith)
        requires
            c * n == y * u,
    ;
    lemma_force(
        u,
        n,
        lengths[i].value(),
        -y,
        torques[i].value(),
        greatest[i].value(),
        -c,
        part.value(),
        strength.value(),
        (m.product)(across.negated(), strength).value(),
    );
    lemma_force(
        u,
        n,
        lengths[i].value(),
        x,
        torques[i].value(),
        greatest[i].value(),
        along.value(),
        part.value(),
        strength.value(),
        (m.product)(along, strength).value(),
    );
}

/// Negating a torque negates its force at the end of an edge, with operations that treat both signs alike.
pub proof fn law_negated_torques_have_negated_forces(
    m: Operations,
    edges: Field,
    torques: Seq<Single>,
    turned: Seq<Single>,
    lengths: Seq<Single>,
    greatest: Seq<Single>,
    i: int,
)
    requires
        is_odd(m),
        edges.has(torques.len()),
        turned.len() == torques.len(),
        0 <= i < torques.len(),
        turned[i] == torques[i].negated(),
        ({
            let part = (m.quotient)(torques[i], lengths[i]);
            &&& !part.nan()
            &&& !(m.product)(part, greatest[i]).nan()
            &&& !m.end_forces(edges, torques, lengths, greatest).x[i].nan()
            &&& !m.end_forces(edges, torques, lengths, greatest).y[i].nan()
        }),
    ensures
        m.end_forces(edges, turned, lengths, greatest).x[i] == m.end_forces(
            edges,
            torques,
            lengths,
            greatest,
        ).x[i].negated(),
        m.end_forces(edges, turned, lengths, greatest).y[i] == m.end_forces(
            edges,
            torques,
            lengths,
            greatest,
        ).y[i].negated(),
{
    let part = (m.quotient)(torques[i], lengths[i]);
    let strength = (m.product)(part, greatest[i]);
    let direction = m.shrunk(edges, m.lengths(edges)).perpendicular();
    assert((m.quotient)(turned[i], lengths[i]) == part.negated());
    assert((m.product)(part.negated(), greatest[i]) == strength.negated());
    lemma_second_factor(m, direction.x[i], strength);
    lemma_second_factor(m, direction.y[i], strength);
}

/// A product changes its sign with its second factor.
proof fn lemma_second_factor(m: Operations, a: Single, b: Single)
    requires
        is_odd(m),
        !(m.product)(a, b).nan(),
    ensures
        (m.product)(a, b.negated()) == (m.product)(a, b).negated(),
{
    law_negation_turns_the_value(a);
    assert((m.product)(a.negated().negated(), b.negated()) == (m.product)(a.negated(), b));
}

/// What particle `k` receives at the first `count` joints, given what each joint gives to its first, its
/// second and its third particle.
pub open spec fn received_at_joints(
    walker: Walker,
    first: Seq<Single>,
    second: Seq<Single>,
    third: Seq<Single>,
    k: int,
    count: int,
) -> int
    decreases count,
{
    if count <= 0 {
        0
    } else {
        let j = count - 1;
        let (a, b, c) = walker.joint_pairs@[j];
        received_at_joints(walker, first, second, third, k, j) + (if a == k {
            first[j].value()
        } else {
            0
        }) + (if b == k {
            second[j].value()
        } else {
            0
        }) + (if c == k {
            third[j].value()
        } else {
            0
        })
    }
}

/// What particle `k` receives from the first `count` edges, given what each edge gives to its start and
/// takes from its end.
pub open spec fn received_from_edges(
    walker: Walker,
    starts: Seq<Single>,
    ends: Seq<Single>,
    k: int,
    count: int,
) -> int
    decreases count,
{
    if count <= 0 {
        0
    } else {
        let e = count - 1;
        received_from_edges(walker, starts, ends, k, e) + (if walker.edges@[e].0 == k {
            starts[e].value()
        } else {
            0
        }) - (if walker.edges@[e].1 == k {
            ends[e].value()
        } else {
            0
        })
    }
}

/// What a row makes of amounts is not rounded.
pub open spec fn lands_exactly(
    m: Operations,
    map: Seq<Single>,
    amounts: Seq<Single>,
    k: int,
) -> bool {
    (m.dot)(matrix_row(map, k, amounts.len()), amounts).value() == signed_total(
        matrix_row(map, k, amounts.len()),
        values_of(amounts),
        amounts.len() as int,
    )
}

/// The share of a row in the columns from one to another.
proof fn lemma_share_goes_on(
    positions: Seq<usize>,
    plus: int,
    row: int,
    amounts: Seq<int>,
    from: int,
    count: int,
)
    requires
        0 <= from,
        0 <= count,
    ensures
        share(positions, plus, row, amounts, from + count) == share(
            positions,
            plus,
            row,
            amounts,
            from,
        ) + landed(positions, plus, row, amounts, from, count),
    decreases count,
{
    if count > 0 {
        lemma_share_goes_on(positions, plus, row, amounts, from, count - 1);
    }
}

/// What lands in a row of the columns from one to another.
spec fn landed(
    positions: Seq<usize>,
    plus: int,
    row: int,
    amounts: Seq<int>,
    from: int,
    count: int,
) -> int
    decreases count,
{
    if count <= 0 {
        0
    } else {
        let c = from + count - 1;
        landed(positions, plus, row, amounts, from, count - 1) + if positions[c] == row {
            if c < plus {
                amounts[c]
            } else {
                -amounts[c]
            }
        } else {
            0
        }
    }
}

proof fn lemma_landed_at_joints(
    walker: Walker,
    first: Seq<Single>,
    second: Seq<Single>,
    third: Seq<Single>,
    k: int,
    count: int,
)
    requires
        0 <= k,
        0 <= count <= walker.joint_pairs@.len(),
        first.len() == walker.joint_pairs@.len(),
        second.len() == walker.joint_pairs@.len(),
        third.len() == walker.joint_pairs@.len(),
    ensures
        ({
            let n = walker.joint_pairs@.len() as int;
            let (columns, amounts) = (walker.joint_columns(), values_of(first + second + third));
            received_at_joints(walker, first, second, third, k, count) == landed(
                columns,
                3 * n,
                k,
                amounts,
                0,
                count,
            ) + landed(columns, 3 * n, k, amounts, n, count) + landed(
                columns,
                3 * n,
                k,
                amounts,
                2 * n,
                count,
            )
        }),
    decreases count,
{
    if count > 0 {
        lemma_landed_at_joints(walker, first, second, third, k, count - 1);
        let n = walker.joint_pairs@.len() as int;
        let amounts = values_of(first + second + third);
        assert(amounts[count - 1] == first[count - 1].value());
        assert(amounts[n + count - 1] == second[count - 1].value());
        assert(amounts[2 * n + count - 1] == third[count - 1].value());
        let columns = walker.joint_columns();
        assert(columns[count - 1] == walker.joint_pairs@[count - 1].0);
        assert(columns[n + count - 1] == walker.joint_pairs@[count - 1].1);
        assert(columns[2 * n + count - 1] == walker.joint_pairs@[count - 1].2);
    }
}

/// What the joints give to a particle is what they give to their first, their second and their third
/// particles where it is one of these.
proof fn lemma_joints_give(
    m: Operations,
    walker: Walker,
    first: Seq<Single>,
    second: Seq<Single>,
    third: Seq<Single>,
    k: int,
)
    requires
        walker.wf(),
        0 <= k < walker.n_particles,
        first.len() == walker.joint_pairs@.len(),
        second.len() == walker.joint_pairs@.len(),
        third.len() == walker.joint_pairs@.len(),
        lands_exactly(m, walker.joint_map_combined@, first + second + third, k),
    ensures
        (m.dot)(
            matrix_row(walker.joint_map_combined@, k, (first + second + third).len()),
            first + second + third,
        ).value() == received_at_joints(
            walker,
            first,
            second,
            third,
            k,
            walker.joint_pairs@.len() as int,
        ),
{
    let n = walker.joint_pairs@.len() as int;
    let all = first + second + third;
    let (columns, amounts) = (walker.joint_columns(), values_of(all));
    lemma_row_is_row_total(walker.joint_map_combined@, k, all.len(), amounts, 3 * n);
    law_map_adds_to_positions(
        walker.joint_map_combined@,
        walker.n_particles as int,
        columns,
        3 * n,
        amounts,
        k,
    );
    lemma_share_goes_on(columns, 3 * n, k, amounts, 0, n);
    lemma_share_goes_on(columns, 3 * n, k, amounts, n, n);
    lemma_share_goes_on(columns, 3 * n, k, amounts, 2 * n, n);
    lemma_landed_at_joints(walker, first, second, third, k, n);
}

proof fn lemma_landed_from_edges(
    walker: Walker,
    starts: Seq<Single>,
    ends: Seq<Single>,
    k: int,
    count: int,
)
    requires
        0 <= k,
        0 <= count <= walker.edges@.len(),
        starts.len() == walker.edges@.len(),
        ends.len() == walker.edges@.len(),
    ensures
        ({
            let n = walker.edges@.len() as int;
            let (columns, amounts) = (walker.edge_columns(), values_of(starts + ends));
            received_from_edges(walker, starts, ends, k, count) == landed(
                columns,
                n,
                k,
                amounts,
                0,
                count,
            ) + landed(columns, n, k, amounts, n, count)
        }),
    decreases count,
{
    if count > 0 {
        lemma_landed_from_edges(walker, starts, ends, k, count - 1);
        let n = walker.edges@.len() as int;
        let amounts = values_of(starts + ends);
        assert(amounts[count - 1] == starts[count - 1].value());
        assert(amounts[n + count - 1] == ends[count - 1].value());
        assert(walker.edge_columns()[count - 1] == walker.edges@[count - 1].0);
        assert(walker.edge_columns()[n + count - 1] == walker.edges@[count - 1].1);
    }
}

/// What the edges give to a particle is what they give where it is their start, less what they take where
/// it is their end.
proof fn lemma_edges_give(
    m: Operations,
    walker: Walker,
    starts: Seq<Single>,
    ends: Seq<Single>,
    k: int,
)
    requires
        walker.wf(),
        0 <= k < walker.n_particles,
        starts.len() == walker.edges@.len(),
        ends.len() == walker.edges@.len(),
        lands_exactly(m, walker.edge_map_combined@, starts + ends, k),
    ensures
        (m.dot)(
            matrix_row(walker.edge_map_combined@, k, (starts + ends).len()),
            starts + ends,
        ).value() == received_from_edges(walker, starts, ends, k, walker.edges@.len() as int),
{
    let n = walker.edges@.len() as int;
    let all = starts + ends;
    let (columns, amounts) = (walker.edge_columns(), values_of(all));
    lemma_row_is_row_total(walker.edge_map_combined@, k, all.len(), amounts, 2 * n);
    law_map_adds_to_positions(
        walker.edge_map_combined@,
        walker.n_particles as int,
        columns,
        n,
        amounts,
        k,
    );
    lemma_share_goes_on(columns, n, k, amounts, 0, n);
    lemma_share_goes_on(columns, n, k, amounts, n, n);
    lemma_landed_from_edges(walker, starts, ends, k, n);
}

/// The torques push the first and the third particle of each joint by the forces at the ends of its edges,
/// and the second by what balances these, where nothing is rounded.
pub proof fn law_torques_push_the_particles_of_their_joints(
    m: Operations,
    walker: Walker,
    p: Field,
    action: Seq<Single>,
    k: int,
)
    requires
        walker.wf(),
        p.has(walker.n_particles as nat),
        action.len() == walker.joint_pairs@.len(),
        0 <= k < walker.n_particles,
        ({
            let parents = m.end_forces(
                walker.towards(m, p),
                action,
                walker.joint_parent_lengths@,
                walker.joint_max_torques@,
            );
            let children = m.end_forces(
                walker.onwards(m, p),
                action,
                walker.joint_child_lengths@,
                walker.joint_max_torques@,
            );
            let middles = m.plus(children, parents).reversed();
            &&& lands_exactly(
                m,
                walker.joint_map_combined@,
                parents.x + middles.x + children.x,
                k,
            )
            &&& lands_exactly(
                m,
                walker.joint_map_combined@,
                parents.y + middles.y + children.y,
                k,
            )
        }),
    ensures
        ({
            let parents = m.end_forces(
                walker.towards(m, p),
                action,
                walker.joint_parent_lengths@,
                walker.joint_max_torques@,
            );
            let children = m.end_forces(
                walker.onwards(m, p),
                action,
                walker.joint_child_lengths@,
                walker.joint_max_torques@,
            );
            let middles = m.plus(children, parents).reversed();
            let (forces, n) = (
                m.torque_forces(walker, p, action),
                walker.joint_pairs@.len() as int,
            );
            &&& forces.x[k].value() == received_at_joints(
                walker,
                parents.x,
                middles.x,
                children.x,
                k,
                n,
            )
            &&& forces.y[k].value() == received_at_joints(
                walker,
                parents.y,
                middles.y,
                children.y,
                k,
                n,
            )
            &&& forall|j: int|
                0 <= j < n && sum_is_exact(m, children.x[j], parents.x[j])
                    ==> (#[trigger] middles.x[j]).value() == -(parents.x[j].value()
                    + children.x[j].value())
            &&& forall|j: int|
                0 <= j < n && sum_is_exact(m, children.y[j], parents.y[j])
                    ==> (#[trigger] middles.y[j]).value() == -(parents.y[j].value()
                    + children.y[j].value())
        }),
{
    law_indices_name_particles(walker);
    let (parents, children) = m.joint_ends(walker, p, action);
    let middles = m.plus(children, parents).reversed();
    lemma_joints_give(m, walker, parents.x, middles.x, children.x, k);
    lemma_joints_give(m, walker, parents.y, middles.y, children.y, k);
    assert forall|j: int|
        0 <= j < walker.joint_pairs@.len() && sum_is_exact(
            m,
            children.x[j],
            parents.x[j],
        ) implies (#[trigger] middles.x[j]).value() == -(parents.x[j].value()
        + children.x[j].value()) by {
        law_negation_turns_the_value((m.sum)(children.x[j], parents.x[j]));
    }
    assert forall|j: int|
        0 <= j < walker.joint_pairs@.len() && sum_is_exact(
            m,
            children.y[j],
            parents.y[j],
        ) implies (#[trigger] middles.y[j]).value() == -(parents.y[j].value()
        + children.y[j].value()) by {
        law_negation_turns_the_value((m.sum)(children.y[j], parents.y[j]));
    }
}

/// No step that leads from one coordinate of a particle to the predicted one is rounded, given the pull of
/// gravity, the force on the particle, its inverse mass and its velocity.
pub open spec fn predicts_exactly(
    m: Operations,
    pull: Single,
    force: Single,
    inverse: Single,
    velocity: Single,
    place: Single,
    dt: Single,
) -> bool {
    let push = (m.product)(force, inverse);
    let acceleration = (m.sum)(pull, push);
    let kick = (m.product)(acceleration, dt);
    let kicked = (m.sum)(velocity, kick);
    let drift = (m.product)(kicked, dt);
    &&& product_is_exact(m, force, inverse)
    &&& sum_is_exact(m, pull, push)
    &&& product_is_exact(m, acceleration, dt)
    &&& sum_is_exact(m, velocity, kick)
    &&& product_is_exact(m, kicked, dt)
    &&& sum_is_exact(m, place, drift)
}

proof fn lemma_prediction(
    u: int,
    pull: int,
    force: int,
    inverse: int,
    velocity: int,
    dt: int,
    push: int,
    kick: int,
    drift: int,
)
    requires
        push * u == force * inverse,
        kick * u == (pull + push) * dt,
        drift * u == (velocity + kick) * dt,
    ensures
        drift * (u * (u * u)) == (velocity * (u * u) + (pull * u + force * inverse) * dt) * dt,
{
    let gained = (pull + push) * u;
    assert(gained == pull * u + push * u) by (nonlinear_arith)
        requires
            gained == (pull + push) * u,
    ;
    let kicks = kick * (u * u);
    assert(kicks == gained * dt) by (nonlinear_arith)
        requires
            kicks == kick * (u * u),
            kick * u == (pull + push) * dt,
            gained == (pull + push) * u,
    ;
    let speed = velocity + kick;
    assert(speed * (u * u) == velocity * (u * u) + kicks) by (nonlinear_arith)
        requires
            speed == velocity + kick,
            kicks == kick * (u * u),
    ;
    assert(drift * (u * (u * u)) == (drift * u) * (u * u)) by (nonlinear_arith);
    assert((speed * dt) * (u * u) == (speed * (u * u)) * dt) by (nonlinear_arith);
}

/// Gravity and the forces change the velocities of the particles, and the changed velocities their places:
/// where nothing is rounded, a particle is predicted to go as far as its velocity and, for the time of the
/// step, what pulls and pushes it lead in that time. Gravity pulls down, the same on every particle, and a
/// force pushes the less, the greater the mass.
pub proof fn law_particles_are_pulled_and_pushed(
    m: Operations,
    walker: Walker,
    p: Field,
    v: Field,
    action: Seq<Single>,
    k: int,
)
    requires
        walker.wf(),
        p.has(walker.n_particles as nat),
        v.has(walker.n_particles as nat),
        action.len() == walker.joint_pairs@.len(),
        0 <= k < walker.n_particles,
        ({
            let (forces, dt) = (m.torque_forces(walker, p, action), walker.config.time_step);
            let inverse = walker.inv_masses@[k];
            &&& predicts_exactly(m, Single::of(ZERO), forces.x[k], inverse, v.x[k], p.x[k], dt)
            &&& predicts_exactly(
                m,
                walker.config.gravity.negated(),
                forces.y[k],
                inverse,
                v.y[k],
                p.y[k],
                dt,
            )
        }),
    ensures
        ({
            let (forces, dt) = (
                m.torque_forces(walker, p, action),
                walker.config.time_step.value(),
            );
            let (inverse, u) = (walker.inv_masses@[k].value(), unit());
            let gravity = walker.config.gravity.value();
            let next = m.predicted(walker, p, v, action);
            &&& (next.x[k].value() - p.x[k].value()) * (u * (u * u)) == (v.x[k].value() * (u * u)
                + (forces.x[k].value() * inverse) * dt) * dt
            &&& (next.y[k].value() - p.y[k].value()) * (u * (u * u)) == (v.y[k].value() * (u * u)
                + (-gravity * u + forces.y[k].value() * inverse) * dt) * dt
        }),
{
    law_indices_name_particles(walker);
    let (forces, dt) = (m.torque_forces(walker, p, action), walker.config.time_step);
    let (inverse, zero) = (walker.inv_masses@[k], Single::of(ZERO));
    let pull = walker.config.gravity.negated();
    law_negation_turns_the_value(walker.config.gravity);
    assert(zero.value() == 0);
    assert(0 * unit() == 0) by (nonlinear_arith);
    let (push_x, push_y) = (
        (m.product)(forces.x[k], inverse),
        (m.product)(forces.y[k], inverse),
    );
    let kick_x = (m.product)((m.sum)(zero, push_x), dt);
    let kick_y = (m.product)((m.sum)(pull, push_y), dt);
    let drift_x = (m.product)((m.sum)(v.x[k], kick_x), dt);
    let drift_y = (m.product)((m.sum)(v.y[k], kick_y), dt);
    lemma_prediction(
        unit(),
        0,
        forces.x[k].value(),
        inverse.value(),
        v.x[k].value(),
        dt.value(),
        push_x.value(),
        kick_x.value(),
        drift_x.value(),
    );
    lemma_prediction(
        unit(),
        pull.value(),
        forces.y[k].value(),
        inverse.value(),
        v.y[k].value(),
        dt.value(),
        push_y.value(),
        kick_y.value(),
        drift_y.value(),
    );
    let next = m.predicted(walker, p, v, action);
    assert(next.x[k] == (m.sum)(p.x[k], drift_x));
    assert(next.y[k] == (m.sum)(p.y[k], drift_y));
}

/// The edges at a joint lead from its first particle to its second, and from there to its third, where
/// nothing is rounded.
pub proof fn law_arms_lead_over_their_joint(m: Operations, walker: Walker, p: Field, j: int)
    requires
        walker.wf(),
        p.has(walker.n_particles as nat),
        0 <= j < walker.joint_pairs@.len(),
        ({
            let (a, b, c) = walker.joint_pairs@[j];
            let (a, b, c) = (a as int, b as int, c as int);
            &&& difference_is_exact(m, p.x[b], p.x[a])
            &&& difference_is_exact(m, p.y[b], p.y[a])
            &&& difference_is_exact(m, p.x[c], p.x[b])
            &&& difference_is_exact(m, p.y[c], p.y[b])
        }),
    ensures
        ({
            let (a, b, c) = walker.joint_pairs@[j];
            let (a, b, c) = (a as int, b as int, c as int);
            let (towards, onwards) = (walker.towards(m, p), walker.onwards(m, p));
            &&& towards.x[j].value() == p.x[b].value() - p.x[a].value()
            &&& towards.y[j].value() == p.y[b].value() - p.y[a].value()
            &&& onwards.x[j].value() == p.x[c].value() - p.x[b].value()
            &&& onwards.y[j].value() == p.y[c].value() - p.y[b].value()
        }),
{
    law_indices_name_particles(walker);
    law_joints_lie_between_edges(walker, j);
    let (a, b, c) = walker.joint_pairs@[j];
    assert(walker.joint_idx_p@[j] == a);
    assert(walker.joint_idx_j@[j] == b);
    assert(walker.joint_idx_c@[j] == c);
}

/// Without constraints, a step leads where it predicts, by its action.
pub proof fn law_without_constraints_a_step_leads_where_it_predicts<A: Arithmetic>(
    walker: Walker,
    arithmetic: A,
    m: Operations,
    state: PhysicsState,
    action: Seq<Vec<Single>>,
    next: PhysicsState,
    b: int,
)
    requires
        m.describes(arithmetic),
        walked(walker, arithmetic, state, action, next),
        walker.config.constraint_iterations == 0,
        0 <= b < state.positions@.len(),
    ensures
        field(next.positions@[b]@) == m.predicted(
            walker,
            field(state.positions@[b]@),
            field(state.velocities@[b]@),
            action[b]@,
        ),
{
    assert(walked_one(
        walker,
        arithmetic,
        field(state.positions@[b]@),
        field(state.velocities@[b]@),
        action[b]@,
        field(next.positions@[b]@),
        field(next.velocities@[b]@),
    ));
}

/// The same walker, with as many rounds of constraints to a step.
pub open spec fn with_rounds(walker: Walker, rounds: usize) -> Walker {
    Walker {
        config: WalkerConfig { constraint_iterations: rounds, ..walker.config },
        ..walker
    }
}

proof fn lemma_rounds_alike(
    m: Operations,
    walker: Walker,
    other: Walker,
    start: Field,
    p: Field,
    count: nat,
)
    requires
        exists|rounds: usize| other == #[trigger] with_rounds(walker, rounds),
    ensures
        m.rounds(other, start, p, count) == m.rounds(walker, start, p, count),
    decreases count,
{
    if count > 0 {
        lemma_rounds_alike(m, walker, other, start, p, (count - 1) as nat);
        let q = m.rounds(walker, start, p, (count - 1) as nat);
        assert(m.hold_lengths(other, q) == m.hold_lengths(walker, q));
        let held = m.hold_lengths(walker, q);
        lemma_angles_alike(m, walker, other, held);
        let turned = m.hold_angles(walker, held);
        assert(m.hold_ground(other, start, turned) == m.hold_ground(walker, start, turned));
    }
}

proof fn lemma_angles_alike(m: Operations, walker: Walker, other: Walker, p: Field)
    requires
        exists|rounds: usize| other == #[trigger] with_rounds(walker, rounds),
    ensures
        m.hold_angles(other, p) == m.hold_angles(walker, p),
{
    assert(m.gradients(other, p) == m.gradients(walker, p));
    let (gp, gc) = m.gradients(walker, p);
    let u = walker.towards(m, p);
    let v = walker.onwards(m, p);
    let angles = m.angles(m.outer_products(u, v), m.inner_products(u, v));
    assert(other.limited(angles) =~= walker.limited(angles));
    assert(m.multipliers(other, p, gp, gc) == m.multipliers(walker, p, gp, gc));
}

/// Every further round of constraints goes on from where a step with one round less leads: it draws the
/// particles towards the lengths of the edges, then towards the ranges of the joints, then out of the
/// ground.
pub proof fn law_rounds_go_on_from_one_another<A: Arithmetic>(
    walker: Walker,
    arithmetic: A,
    m: Operations,
    state: PhysicsState,
    action: Seq<Vec<Single>>,
    next: PhysicsState,
    further: PhysicsState,
    rounds: usize,
    b: int,
)
    requires
        m.describes(arithmetic),
        rounds < usize::MAX,
        walked(with_rounds(walker, rounds), arithmetic, state, action, next),
        walked(
            with_rounds(walker, (rounds + 1) as usize),
            arithmetic,
            state,
            action,
            further,
        ),
        0 <= b < state.positions@.len(),
    ensures
        field(further.positions@[b]@) == m.hold_ground(
            walker,
            field(state.positions@[b]@),
            m.hold_angles(walker, m.hold_lengths(walker, field(next.positions@[b]@))),
        ),
{
    let (less, more) = (with_rounds(walker, rounds), with_rounds(walker, (rounds + 1) as usize));
    let (p, v) = (field(state.positions@[b]@), field(state.velocities@[b]@));
    assert(walked_one(
        less,
        arithmetic,
        p,
        v,
        action[b]@,
        field(next.positions@[b]@),
        field(next.velocities@[b]@),
    ));
    assert(walked_one(
        more,
        arithmetic,
        p,
        v,
        action[b]@,
        field(further.positions@[b]@),
        field(further.velocities@[b]@),
    ));
    assert(m.predicted(less, p, v, action[b]@) == m.predicted(walker, p, v, action[b]@));
    assert(m.predicted(more, p, v, action[b]@) == m.predicted(walker, p, v, action[b]@));
    let first = m.predicted(walker, p, v, action[b]@);
    lemma_rounds_alike(m, walker, less, p, first, rounds as nat);
    lemma_rounds_alike(m, walker, more, p, first, (rounds + 1) as nat);
}

/// The velocities after a step lead from where the particles were to where they are in the time of the step,
/// and the time goes on by as much, where nothing is rounded. The velocity to walk at stays.
pub proof fn law_velocities_lead_where_the_particles_went<A: Arithmetic>(
    walker: Walker,
    arithmetic: A,
    m: Operations,
    state: PhysicsState,
    action: Seq<Vec<Single>>,
    next: PhysicsState,
    b: int,
    k: int,
)
    requires
        m.describes(arithmetic),
        walked(walker, arithmetic, state, action, next),
        state.holds(state.positions@.len(), walker.n_particles as nat),
        0 <= b < state.positions@.len(),
        0 <= k < walker.n_particles,
        ({
            let (from, to) = (state.positions@[b]@[k], next.positions@[b]@[k]);
            let dt = walker.config.time_step;
            &&& difference_is_exact(m, to.x, from.x)
            &&& difference_is_exact(m, to.y, from.y)
            &&& quotient_is_exact(m, (m.difference)(to.x, from.x), dt)
            &&& quotient_is_exact(m, (m.difference)(to.y, from.y), dt)
            &&& sum_is_exact(m, state.time@[b], dt)
        }),
    ensures
        ({
            let (from, to) = (state.positions@[b]@[k], next.positions@[b]@[k]);
            let velocity = next.velocities@[b]@[k];
            let dt = walker.config.time_step.value();
            &&& velocity.x.value() * dt == (to.x.value() - from.x.value()) * unit()
            &&& velocity.y.value() * dt == (to.y.value() - from.y.value()) * unit()
            &&& next.time@[b].value() == state.time@[b].value() + dt
            &&& next.target_velocity@[b] == state.target_velocity@[b]
        }),
{
    assert(walked_one(
        walker,
        arithmetic,
        field(state.positions@[b]@),
        field(state.velocities@[b]@),
        action[b]@,
        field(next.positions@[b]@),
        field(next.velocities@[b]@),
    ));
    assert(state.positions@[b]@.len() == walker.n_particles);
    assert(next.positions@[b]@.len() == walker.n_particles);
    assert(next.velocities@[b]@.len() == walker.n_particles);
    assert(field(next.velocities@[b]@).x[k] == next.velocities@[b]@[k].x);
    assert(field(next.velocities@[b]@).y[k] == next.velocities@[b]@[k].y);
}

/// A particle is raised to the ground where it is below it, and stays at its height elsewhere. Where it is
/// no higher than a hundredth, friction takes back its part of the way that the particle went along the
/// ground, and nothing where it is higher. Nothing is rounded.
pub proof fn law_the_ground_lifts_and_holds(
    m: Operations,
    walker: Walker,
    start: Field,
    p: Field,
    k: int,
)
    requires
        p.has(p.x.len()),
        start.has(p.x.len()),
        0 <= k < p.x.len(),
        !p.y[k].nan(),
        ({
            let went = (m.difference)(p.x[k], start.x[k]);
            let pull = (m.product)(went.negated(), walker.config.friction);
            &&& difference_is_exact(m, p.x[k], start.x[k])
            &&& product_is_exact(m, went.negated(), walker.config.friction)
            &&& sum_is_exact(m, p.x[k], pull)
            &&& sum_is_exact(m, p.x[k], Single::of(ZERO))
            &&& sum_is_exact(m, p.y[k], p.y[k].unsigned())
            &&& sum_is_exact(m, p.y[k], Single::of(ZERO))
        }),
    ensures
        ({
            let next = m.hold_ground(walker, start, p);
            let (x, y) = (p.x[k].value(), p.y[k].value());
            &&& next.y[k].value() == greater(y, 0)
            &&& y <= Single::of(ONE_HUNDREDTH).value() ==> (next.x[k].value() - x) * unit() == -(x
                - start.x[k].value()) * walker.config.friction.value()
            &&& y > Single::of(ONE_HUNDREDTH).value() ==> next.x[k].value() == x
        }),
{
    let went = (m.difference)(p.x[k], start.x[k]);
    law_negation_turns_the_value(went);
    law_unsigned_numbers_keep_their_distance(p.y[k]);
    assert(Single::of(ZERO).value() == 0);
}

/// No step that leads to what one coordinate of the ends of an edge is given is rounded.
pub open spec fn draws_exactly(
    m: Operations,
    from: Single,
    to: Single,
    length: Single,
    dist: Single,
    w1: Single,
    w2: Single,
    w_sum: Single,
) -> bool {
    let delta = (m.difference)(to, from);
    let surplus = (m.difference)(dist, length);
    let diff = (m.quotient)(surplus, dist);
    let correction = (m.product)(delta, diff);
    let (q1, q2) = ((m.quotient)(w1, w_sum), (m.quotient)(w2, w_sum));
    &&& difference_is_exact(m, to, from)
    &&& difference_is_exact(m, dist, length)
    &&& quotient_is_exact(m, surplus, dist)
    &&& product_is_exact(m, delta, diff)
    &&& quotient_is_exact(m, w1, w_sum)
    &&& quotient_is_exact(m, w2, w_sum)
    &&& product_is_exact(m, correction, q1)
    &&& product_is_exact(m, correction, q2)
}

proof fn lemma_drawn(
    u: int,
    delta: int,
    surplus: int,
    dist: int,
    w: int,
    w_sum: int,
    diff: int,
    correction: int,
    q: int,
    c: int,
)
    requires
        u > 0,
        diff * dist == surplus * u,
        correction * u == delta * diff,
        q * w_sum == w * u,
        c * u == correction * q,
    ensures
        (c * w_sum) * dist == (delta * surplus) * w,
{
    assert(correction * dist == delta * surplus) by {
        assert((correction * dist) * u == (correction * u) * dist) by (nonlinear_arith);
        assert((delta * diff) * dist == delta * (diff * dist)) by (nonlinear_arith);
        assert(delta * (surplus * u) == (delta * surplus) * u) by (nonlinear_arith);
        lemma_cancel(correction * dist, delta * surplus, u);
    }
    assert(c * w_sum == correction * w) by {
        assert((c * w_sum) * u == (c * u) * w_sum) by (nonlinear_arith);
        assert((correction * q) * w_sum == correction * (q * w_sum)) by (nonlinear_arith);
        assert(correction * (w * u) == (correction * w) * u) by (nonlinear_arith);
        lemma_cancel(c * w_sum, correction * w, u);
    }
    assert((correction * w) * dist == (correction * dist) * w) by (nonlinear_arith);
}

/// An edge that is longer or shorter than it should be draws its ends together or apart, along itself and by
/// as much as it is off, each end by its part of the weights: where nothing is rounded, what an end is given
/// times the sum of the weights and the length that the edge has is the surplus of that length times the
/// weight of the end, along the edge.
pub proof fn law_edges_draw_their_ends_by_their_surplus(
    m: Operations,
    walker: Walker,
    p: Field,
    e: int,
)
    requires
        walker.wf(),
        p.has(walker.n_particles as nat),
        0 <= e < walker.edges@.len(),
        ({
            let (s, t) = (walker.edges@[e].0 as int, walker.edges@[e].1 as int);
            let delta = m.minus(p.selected(walker.edge_idx_2@), p.selected(walker.edge_idx_1@));
            let (dist, length) = (m.lengths(delta)[e], walker.edges@[e].2);
            let (w1, w2) = (walker.inv_masses@[s], walker.inv_masses@[t]);
            let w_sum = walker.edge_w_sum@[e];
            &&& measures_vector_exactly(m, delta.x[e], delta.y[e])
            &&& draws_exactly(m, p.x[s], p.x[t], length, dist, w1, w2, w_sum)
            &&& draws_exactly(m, p.y[s], p.y[t], length, dist, w1, w2, w_sum)
        }),
    ensures
        ({
            let (s, t) = (walker.edges@[e].0 as int, walker.edges@[e].1 as int);
            let (starts, ends) = m.length_shares(walker, m.length_correction(walker, p));
            let delta = m.minus(p.selected(walker.edge_idx_2@), p.selected(walker.edge_idx_1@));
            let dist = m.lengths(delta)[e].value();
            let surplus = dist - walker.edges@[e].2.value();
            let (w1, w2) = (walker.inv_masses@[s].value(), walker.inv_masses@[t].value());
            let w_sum = walker.edge_w_sum@[e].value();
            let (x, y) = (p.x[t].value() - p.x[s].value(), p.y[t].value() - p.y[s].value());
            &&& is_length(x, y, dist)
            &&& (starts.x[e].value() * w_sum) * dist == (x * surplus) * w1
            &&& (starts.y[e].value() * w_sum) * dist == (y * surplus) * w1
            &&& (ends.x[e].value() * w_sum) * dist == (x * surplus) * w2
            &&& (ends.y[e].value() * w_sum) * dist == (y * surplus) * w2
        }),
{
    law_indices_name_particles(walker);
    law_edges_reach_every_particle_once(walker, e + 1);
    let (s, t) = (walker.edges@[e].0 as int, walker.edges@[e].1 as int);
    assert(walker.edge_idx_1@[e] == s);
    assert(walker.edge_idx_2@[e] == t);
    let delta = m.minus(p.selected(walker.edge_idx_2@), p.selected(walker.edge_idx_1@));
    law_lengths_are_roots_of_squares(m, delta, e);
    let (dist, length) = (m.lengths(delta)[e], walker.edges@[e].2);
    let (w1, w2) = (walker.inv_masses@[s], walker.inv_masses@[t]);
    let w_sum = walker.edge_w_sum@[e];
    assert(walker.edge_w1@[e] == w1);
    assert(walker.edge_w2@[e] == w2);
    assert(walker.edge_lengths@[e] == length);
    let surplus = (m.difference)(dist, length);
    let diff = (m.quotient)(surplus, dist);
    let (q1, q2) = ((m.quotient)(w1, w_sum), (m.quotient)(w2, w_sum));
    let (cx, cy) = ((m.product)(delta.x[e], diff), (m.product)(delta.y[e], diff));
    lemma_unit_is_positive();
    lemma_drawn(
        unit(),
        delta.x[e].value(),
        surplus.value(),
        dist.value(),
        w1.value(),
        w_sum.value(),
        diff.value(),
        cx.value(),
        q1.value(),
        (m.product)(cx, q1).value(),
    );
    lemma_drawn(
        unit(),
        delta.y[e].value(),
        surplus.value(),
        dist.value(),
        w1.value(),
        w_sum.value(),
        diff.value(),
        cy.value(),
        q1.value(),
        (m.product)(cy, q1).value(),
    );
    lemma_drawn(
        unit(),
        delta.x[e].value(),
        surplus.value(),
        dist.value(),
        w2.value(),
        w_sum.value(),
        diff.value(),
        cx.value(),
        q2.value(),
        (m.product)(cx, q2).value(),
    );
    lemma_drawn(
        unit(),
        delta.y[e].value(),
        surplus.value(),
        dist.value(),
        w2.value(),
        w_sum.value(),
        diff.value(),
        cy.value(),
        q2.value(),
        (m.product)(cy, q2).value(),
    );
}

/// Every particle goes where the edges that start in it draw it, and away from where those that end in it
/// draw it, where nothing is rounded.
pub proof fn law_edges_move_their_ends(m: Operations, walker: Walker, p: Field, k: int)
    requires
        walker.wf(),
        p.has(walker.n_particles as nat),
        0 <= k < walker.n_particles,
        ({
            let (starts, ends) = m.length_shares(walker, m.length_correction(walker, p));
            let (map, n) = (walker.edge_map_combined@, 2 * walker.edges@.len());
            &&& lands_exactly(m, map, starts.x + ends.x, k)
            &&& lands_exactly(m, map, starts.y + ends.y, k)
            &&& sum_is_exact(m, p.x[k], (m.dot)(matrix_row(map, k, n), starts.x + ends.x))
            &&& sum_is_exact(m, p.y[k], (m.dot)(matrix_row(map, k, n), starts.y + ends.y))
        }),
    ensures
        ({
            let (starts, ends) = m.length_shares(walker, m.length_correction(walker, p));
            let (held, n) = (m.hold_lengths(walker, p), walker.edges@.len() as int);
            &&& held.x[k].value() == p.x[k].value() + received_from_edges(
                walker,
                starts.x,
                ends.x,
                k,
                n,
            )
            &&& held.y[k].value() == p.y[k].value() + received_from_edges(
                walker,
                starts.y,
                ends.y,
                k,
                n,
            )
        }),
{
    law_indices_name_particles(walker);
    let (starts, ends) = m.length_shares(walker, m.length_correction(walker, p));
    assert((starts.x + ends.x).len() == 2 * walker.edges@.len());
    assert((starts.y + ends.y).len() == 2 * walker.edges@.len());
    lemma_edges_give(m, walker, starts.x, ends.x, k);
    lemma_edges_give(m, walker, starts.y, ends.y, k);
}

/// No step that leads to how an angle changes with the end of an edge is rounded.
pub open spec fn leans_exactly(m: Operations, x: Single, y: Single) -> bool {
    let (xx, yy) = ((m.product)(x, x), (m.product)(y, y));
    let square = (m.sum)(xx, yy).floored(Single::of(ONE_MILLIONTH));
    &&& product_is_exact(m, x, x)
    &&& product_is_exact(m, y, y)
    &&& sum_is_exact(m, xx, yy)
    &&& !(m.sum)(xx, yy).nan()
    &&& quotient_is_exact(m, y.negated(), square)
    &&& quotient_is_exact(m, x, square)
}

/// `lean` is across an edge, as long as the edge is short: times the square of the length, which counts as
/// no less than a millionth, it is the edge turned by a right angle.
pub open spec fn is_lean(x: int, y: int, lean_x: int, lean_y: int) -> bool {
    exists|square: int|
        #[trigger] (square * unit()) == greater(
            x * x + y * y,
            Single::of(ONE_MILLIONTH).value() * unit(),
        ) && lean_x * square == -y * unit() && lean_y * square == x * unit()
}

proof fn lemma_leans(m: Operations, x: Single, y: Single)
    requires
        leans_exactly(m, x, y),
    ensures
        ({
            let square = (m.sum)((m.product)(x, x), (m.product)(y, y)).floored(
                Single::of(ONE_MILLIONTH),
            );
            is_lean(
                x.value(),
                y.value(),
                (m.quotient)(y.negated(), square).value(),
                (m.quotient)(x, square).value(),
            )
        }),
{
    let (xx, yy) = ((m.product)(x, x), (m.product)(y, y));
    let sum = (m.sum)(xx, yy);
    let square = sum.floored(Single::of(ONE_MILLIONTH));
    let (u, tiny) = (unit(), Single::of(ONE_MILLIONTH).value());
    lemma_unit_is_positive();
    law_negation_turns_the_value(y);
    assert((xx.value() + yy.value()) * u == xx.value() * u + yy.value() * u) by (nonlinear_arith);
    let s = sum.value();
    assert(s < tiny <==> s * u < tiny * u) by (nonlinear_arith)
        requires
            u > 0,
    ;
    assert(square.value() * u == greater(
        x.value() * x.value() + y.value() * y.value(),
        tiny * u,
    ));
}

/// How the angle at a joint changes with its first and its third particle: across the edges at the joint,
/// and the more, the shorter they are. Nothing is rounded.
pub proof fn law_gradients_stand_across_the_edges(m: Operations, walker: Walker, p: Field, j: int)
    requires
        walker.wf(),
        p.has(walker.n_particles as nat),
        0 <= j < walker.joint_pairs@.len(),
        leans_exactly(m, walker.towards(m, p).x[j], walker.towards(m, p).y[j]),
        leans_exactly(m, walker.onwards(m, p).x[j], walker.onwards(m, p).y[j]),
    ensures
        ({
            let (gp, gc) = m.gradients(walker, p);
            let (u, v) = (walker.towards(m, p), walker.onwards(m, p));
            &&& is_lean(u.x[j].value(), u.y[j].value(), gp.x[j].value(), gp.y[j].value())
            &&& is_lean(v.x[j].value(), v.y[j].value(), gc.x[j].value(), gc.y[j].value())
        }),
{
    law_indices_name_particles(walker);
    let (u, v) = (walker.towards(m, p), walker.onwards(m, p));
    lemma_leans(m, u.x[j], u.y[j]);
    lemma_leans(m, v.x[j], v.y[j]);
}

/// The square of a vector and its product with a weight are not rounded.
pub open spec fn weighs_square_exactly(m: Operations, weight: Single, x: Single, y: Single) -> bool {
    let (xx, yy) = ((m.product)(x, x), (m.product)(y, y));
    &&& product_is_exact(m, x, x)
    &&& product_is_exact(m, y, y)
    &&& sum_is_exact(m, xx, yy)
    &&& product_is_exact(m, weight, (m.sum)(xx, yy))
}

proof fn lemma_weighed_square(m: Operations, weight: Single, x: Single, y: Single)
    requires
        weighs_square_exactly(m, weight, x, y),
    ensures
        (m.product)(
            weight,
            (m.sum)((m.product)(x, x), (m.product)(y, y)),
        ).value() * (unit() * unit()) == weight.value() * (x.value() * x.value() + y.value()
            * y.value()),
{
    let (xx, yy) = ((m.product)(x, x), (m.product)(y, y));
    let square = (m.sum)(xx, yy);
    let (r, w, s, u) = (
        (m.product)(weight, square).value(),
        weight.value(),
        square.value(),
        unit(),
    );
    assert((xx.value() + yy.value()) * u == xx.value() * u + yy.value() * u) by (nonlinear_arith);
    assert(r * (u * u) == (r * u) * u) by (nonlinear_arith);
    assert((w * s) * u == w * (s * u)) by (nonlinear_arith);
}

/// What an excess of an angle is divided by: the squares of the gradients of the three particles of the
/// joint, each by its weight, and a ten thousandth, where nothing is rounded.
pub proof fn law_stiffness_weighs_the_gradients(
    m: Operations,
    walker: Walker,
    gp: Field,
    gj: Field,
    gc: Field,
    j: int,
)
    requires
        walker.wf(),
        gp.has(walker.joint_pairs@.len()),
        gj.has(walker.joint_pairs@.len()),
        gc.has(walker.joint_pairs@.len()),
        0 <= j < walker.joint_pairs@.len(),
        ({
            let (a, b, c) = walker.joint_pairs@[j];
            let (wp, wj, wc) = (
                walker.inv_masses@[a as int],
                walker.inv_masses@[b as int],
                walker.inv_masses@[c as int],
            );
            let part = |w: Single, x: Single, y: Single|
                (m.product)(w, (m.sum)((m.product)(x, x), (m.product)(y, y)));
            let first = part(wp, gp.x[j], gp.y[j]);
            let second = part(wj, gj.x[j], gj.y[j]);
            let third = part(wc, gc.x[j], gc.y[j]);
            let outer = (m.sum)(first, third);
            &&& weighs_square_exactly(m, wp, gp.x[j], gp.y[j])
            &&& weighs_square_exactly(m, wj, gj.x[j], gj.y[j])
            &&& weighs_square_exactly(m, wc, gc.x[j], gc.y[j])
            &&& sum_is_exact(m, first, third)
            &&& sum_is_exact(m, outer, second)
            &&& sum_is_exact(m, (m.sum)(outer, second), Single::of(ONE_TEN_THOUSANDTH))
        }),
    ensures
        ({
            let (a, b, c) = walker.joint_pairs@[j];
            let (wp, wj, wc) = (
                walker.inv_masses@[a as int].value(),
                walker.inv_masses@[b as int].value(),
                walker.inv_masses@[c as int].value(),
            );
            let square = |x: Single, y: Single| x.value() * x.value() + y.value() * y.value();
            (m.stiffness(walker, gp, gj, gc)[j].value() - Single::of(ONE_TEN_THOUSANDTH).value())
                * (unit() * unit()) == wp * square(gp.x[j], gp.y[j]) + wj * square(
                gj.x[j],
                gj.y[j],
            ) + wc * square(gc.x[j], gc.y[j])
        }),
{
    law_indices_name_particles(walker);
    law_joints_lie_between_edges(walker, j);
    let (a, b, c) = walker.joint_pairs@[j];
    assert(walker.joint_idx_p@[j] == a);
    assert(walker.joint_idx_j@[j] == b);
    assert(walker.joint_idx_c@[j] == c);
    let (wp, wj, wc) = (
        walker.inv_masses@[a as int],
        walker.inv_masses@[b as int],
        walker.inv_masses@[c as int],
    );
    assert(walker.joint_w_p@[j] == wp);
    assert(walker.joint_w_j@[j] == wj);
    assert(walker.joint_w_c@[j] == wc);
    lemma_weighed_square(m, wp, gp.x[j], gp.y[j]);
    lemma_weighed_square(m, wj, gj.x[j], gj.y[j]);
    lemma_weighed_square(m, wc, gc.x[j], gc.y[j]);
    let part = |w: Single, x: Single, y: Single|
        (m.product)(w, (m.sum)((m.product)(x, x), (m.product)(y, y)));
    let (f, s, t) = (
        part(wp, gp.x[j], gp.y[j]).value(),
        part(wj, gj.x[j], gj.y[j]).value(),
        part(wc, gc.x[j], gc.y[j]).value(),
    );
    let uu = unit() * unit();
    assert((f + t + s) * uu == f * uu + s * uu + t * uu) by (nonlinear_arith);
}

/// The angle that a joint is in, the one that it is drawn to, and how far its particles go along their
/// gradients: where nothing is rounded, that times the stiffness is what the angle lies beyond the range of
/// the joint, and nothing where it lies in it.
pub proof fn law_joints_are_drawn_into_their_ranges(
    m: Operations,
    walker: Walker,
    p: Field,
    gp: Field,
    gc: Field,
    j: int,
)
    requires
        walker.wf(),
        p.has(walker.n_particles as nat),
        gp.has(walker.joint_pairs@.len()),
        gc.has(walker.joint_pairs@.len()),
        0 <= j < walker.joint_pairs@.len(),
        walker.joint_angle_min@[j].up_to(walker.joint_angle_max@[j]),
        ({
            let (u, v) = (walker.towards(m, p), walker.onwards(m, p));
            let (a, b) = ((m.product)(u.x[j], v.y[j]), (m.product)(u.y[j], v.x[j]));
            let (c, d) = ((m.product)(u.x[j], v.x[j]), (m.product)(u.y[j], v.y[j]));
            let angle = m.atan2((m.difference)(a, b), (m.sum)(c, d));
            let limited = angle.drawn_between(
                walker.joint_angle_min@[j],
                walker.joint_angle_max@[j],
            );
            let excess = (m.difference)(angle, limited);
            let gj = m.plus(gp, gc).reversed();
            &&& !angle.nan()
            &&& difference_is_exact(m, angle, limited)
            &&& quotient_is_exact(
                m,
                excess.negated(),
                m.stiffness(walker, gp, gj, gc)[j],
            )
            &&& product_is_exact(m, u.x[j], v.y[j])
            &&& product_is_exact(m, u.y[j], v.x[j])
            &&& product_is_exact(m, u.x[j], v.x[j])
            &&& product_is_exact(m, u.y[j], v.y[j])
            &&& difference_is_exact(m, a, b)
            &&& sum_is_exact(m, c, d)
        }),
    ensures
        ({
            let (u, v) = (walker.towards(m, p), walker.onwards(m, p));
            let (ux, uy, vx, vy) = (
                u.x[j].value(),
                u.y[j].value(),
                v.x[j].value(),
                v.y[j].value(),
            );
            let (low, high) = (
                walker.joint_angle_min@[j].value(),
                walker.joint_angle_max@[j].value(),
            );
            let gj = m.plus(gp, gc).reversed();
            let stiffness = m.stiffness(walker, gp, gj, gc)[j].value();
            let lambda = m.multipliers(walker, p, gp, gc)[j].value();
            exists|cross: Single, dot: Single|
                {
                    let angle = (#[trigger] m.atan2(cross, dot)).value();
                    let beyond = if angle < low {
                        low - angle
                    } else if angle > high {
                        high - angle
                    } else {
                        0
                    };
                    &&& cross.value() * unit() == ux * vy - uy * vx
                    &&& dot.value() * unit() == ux * vx + uy * vy
                    &&& lambda * stiffness == beyond * unit()
                }
        }),
{
    law_indices_name_particles(walker);
    let (u, v) = (walker.towards(m, p), walker.onwards(m, p));
    let (a, b) = ((m.product)(u.x[j], v.y[j]), (m.product)(u.y[j], v.x[j]));
    let (c, d) = ((m.product)(u.x[j], v.x[j]), (m.product)(u.y[j], v.y[j]));
    let (cross, dot) = ((m.difference)(a, b), (m.sum)(c, d));
    let angle = m.atan2(cross, dot);
    let (low, high) = (walker.joint_angle_min@[j], walker.joint_angle_max@[j]);
    law_drawn_numbers_stay_or_go_to_the_nearer_end(angle, low, high);
    let excess = (m.difference)(angle, angle.drawn_between(low, high));
    law_negation_turns_the_value(excess);
    let k = unit();
    assert((a.value() - b.value()) * k == a.value() * k - b.value() * k) by (nonlinear_arith);
    assert((c.value() + d.value()) * k == c.value() * k + d.value() * k) by (nonlinear_arith);
    assert(m.multipliers(walker, p, gp, gc)[j] == (m.quotient)(
        excess.negated(),
        m.stiffness(walker, gp, m.plus(gp, gc).reversed(), gc)[j],
    ));
}

/// What a joint gives to its particles, where nothing is rounded: along their gradients, by the multiplier
/// and by the weight of each, where the gradient of the second balances those of the other two; and every
/// particle goes where the joints that it belongs to draw it.
pub proof fn law_joints_move_their_particles(
    m: Operations,
    walker: Walker,
    p: Field,
    k: int,
)
    requires
        walker.wf(),
        p.has(walker.n_particles as nat),
        0 <= k < walker.n_particles,
        ({
            let (gp, gc) = m.gradients(walker, p);
            let gj = m.plus(gp, gc).reversed();
            let lambda = m.multipliers(walker, p, gp, gc);
            let given = |g: Field, w: Seq<Single>|
                m.scaled(m.scaled(g, lambda), w);
            let (dp, dj, dc) = (
                given(gp, walker.joint_w_p@),
                given(gj, walker.joint_w_j@),
                given(gc, walker.joint_w_c@),
            );
            let (map, n) = (walker.joint_map_combined@, 3 * walker.joint_pairs@.len());
            &&& lands_exactly(m, map, dp.x + dj.x + dc.x, k)
            &&& lands_exactly(m, map, dp.y + dj.y + dc.y, k)
            &&& sum_is_exact(m, p.x[k], (m.dot)(matrix_row(map, k, n), dp.x + dj.x + dc.x))
            &&& sum_is_exact(m, p.y[k], (m.dot)(matrix_row(map, k, n), dp.y + dj.y + dc.y))
        }),
    ensures
        ({
            let (gp, gc) = m.gradients(walker, p);
            let gj = m.plus(gp, gc).reversed();
            let lambda = m.multipliers(walker, p, gp, gc);
            let given = |g: Field, w: Seq<Single>|
                m.scaled(m.scaled(g, lambda), w);
            let (dp, dj, dc) = (
                given(gp, walker.joint_w_p@),
                given(gj, walker.joint_w_j@),
                given(gc, walker.joint_w_c@),
            );
            let (held, n) = (m.hold_angles(walker, p), walker.joint_pairs@.len() as int);
            &&& held.x[k].value() == p.x[k].value() + received_at_joints(
                walker,
                dp.x,
                dj.x,
                dc.x,
                k,
                n,
            )
            &&& held.y[k].value() == p.y[k].value() + received_at_joints(
                walker,
                dp.y,
                dj.y,
                dc.y,
                k,
                n,
            )
        }),
{
    law_indices_name_particles(walker);
    let (gp, gc) = m.gradients(walker, p);
    let gj = m.plus(gp, gc).reversed();
    let lambda = m.multipliers(walker, p, gp, gc);
    let given = |g: Field, w: Seq<Single>| m.scaled(m.scaled(g, lambda), w);
    let (dp, dj, dc) = (
        given(gp, walker.joint_w_p@),
        given(gj, walker.joint_w_j@),
        given(gc, walker.joint_w_c@),
    );
    assert((dp.x + dj.x + dc.x).len() == 3 * walker.joint_pairs@.len());
    assert((dp.y + dj.y + dc.y).len() == 3 * walker.joint_pairs@.len());
    lemma_joints_give(m, walker, dp.x, dj.x, dc.x, k);
    lemma_joints_give(m, walker, dp.y, dj.y, dc.y, k);
}

} // verus!
