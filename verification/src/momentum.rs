//! Momentum and the center of mass.
//!
//! The laws here are about what holds where nothing is rounded: they ask of the operations that they are
//! exact on the numbers that occur, and count in the values of these.

use crate::arithmetic::Operations;
use crate::contact::{held_back, raised, touches_ground};
use crate::fidelity::{lemma_unit_is_positive, unit, values_of};
use crate::field::{matrix_row, Field};
use crate::incidence::{
    amounts_total, cell, is_incidence, law_map_adds_to_positions, law_map_keeps_the_total, row_total,
    share, shares_total, weight,
};
use crate::lanes::{negatives, repeated};
use crate::numbers::ONE_MILLIONTH;
use crate::single::{
    law_negation_turns_the_value, lemma_key_orders, Single, ZERO,
};
use crate::walker::{
    law_edges_reach_every_particle_once, law_indices_name_particles, law_joints_lie_between_edges,
    Walker,
};
use vstd::prelude::*;

verus! {

/// The first `count` numbers together, each by its weight.
pub open spec fn weighted_total(weights: Seq<int>, numbers: Seq<int>, count: int) -> int
    decreases count,
{
    if count <= 0 {
        0
    } else {
        weighted_total(weights, numbers, count - 1) + weights[count - 1] * numbers[count - 1]
    }
}

/// What the first `count` entries of a row make of the amounts.
pub open spec fn signed_total(row: Seq<Single>, amounts: Seq<int>, count: int) -> int
    decreases count,
{
    if count <= 0 {
        0
    } else {
        signed_total(row, amounts, count - 1) + weight(row[count - 1]) * amounts[count - 1]
    }
}

/// Nothing is rounded in the sums.
pub open spec fn sums_exactly(m: Operations, a: Seq<Single>, b: Seq<Single>) -> bool {
    forall|i: int|
        0 <= i < a.len() ==> (#[trigger] m.sums(a, b)[i]).value() == a[i].value() + b[i].value()
}

/// Nothing is rounded in the products.
pub open spec fn multiplies_exactly(m: Operations, a: Seq<Single>, b: Seq<Single>) -> bool {
    forall|i: int|
        0 <= i < a.len() ==> (#[trigger] m.products(a, b)[i]).value() * unit() == a[i].value()
            * b[i].value()
}

/// Nothing is rounded in the quotients.
pub open spec fn divides_exactly(m: Operations, a: Seq<Single>, b: Seq<Single>) -> bool {
    forall|i: int|
        0 <= i < a.len() ==> (#[trigger] m.quotients(a, b)[i]).value() * b[i].value()
            == a[i].value() * unit()
}

/// Nothing is rounded where a map of `rows` rows spreads numbers.
pub open spec fn spreads_exactly(
    m: Operations,
    map: Seq<Single>,
    rows: nat,
    amounts: Seq<Single>,
) -> bool {
    forall|r: int|
        0 <= r < rows ==> (m.dot)(#[trigger] matrix_row(map, r, amounts.len()), amounts).value()
            == signed_total(
            matrix_row(map, r, amounts.len()),
            values_of(amounts),
            amounts.len() as int,
        )
}

/// Amounts for the first particles of the joints, then for their second, then for their third, where the
/// second bear what balances the other two.
pub open spec fn balanced(parents: Seq<int>, children: Seq<int>) -> Seq<int> {
    parents + Seq::new(parents.len(), |j: int| -(parents[j] + children[j])) + children
}

proof fn lemma_thirds_total(
    forces: Seq<int>,
    parents: Seq<int>,
    children: Seq<int>,
    n: int,
    a: int,
    b: int,
    c: int,
)
    requires
        forces == balanced(parents, children),
        parents.len() == n,
        children.len() == n,
        0 <= a <= n,
        0 <= b <= n,
        0 <= c <= n,
        b > 0 ==> a == n,
        c > 0 ==> b == n && a == n,
    ensures
        amounts_total(3 * n, forces, a + b + c) == parents.take(a).fold_left(
            0int,
            |sum: int, x: int| sum + x,
        ) - parents.take(b).fold_left(0int, |sum: int, x: int| sum + x) - children.take(
            b,
        ).fold_left(0int, |sum: int, x: int| sum + x) + children.take(c).fold_left(
            0int,
            |sum: int, x: int| sum + x,
        ),
    decreases a + b + c,
{
    let plus = |sum: int, x: int| sum + x;
    reveal_with_fuel(Seq::fold_left, 2);
    if c > 0 {
        lemma_thirds_total(forces, parents, children, n, a, b, c - 1);
        assert(children.take(c).drop_last() =~= children.take(c - 1));
    } else if b > 0 {
        lemma_thirds_total(forces, parents, children, n, a, b - 1, c);
        assert(children.take(b).drop_last() =~= children.take(b - 1));
        assert(parents.take(b).drop_last() =~= parents.take(b - 1));
    } else if a > 0 {
        lemma_thirds_total(forces, parents, children, n, a - 1, b, c);
        assert(parents.take(a).drop_last() =~= parents.take(a - 1));
    }
}

/// Amounts that balance at every joint add up to nothing.
proof fn lemma_balanced_total(parents: Seq<int>, children: Seq<int>)
    requires
        children.len() == parents.len(),
    ensures
        amounts_total(
            balanced(parents, children).len() as int,
            balanced(parents, children),
            balanced(parents, children).len() as int,
        ) == 0,
{
    let n = parents.len() as int;
    lemma_thirds_total(balanced(parents, children), parents, children, n, n, n, n);
}

/// Amounts that occur once as they are and once negated add up to nothing.
proof fn lemma_pairs_cancel(amounts: Seq<int>, n: int, i: int)
    requires
        0 <= i <= n,
        amounts.len() == 2 * n,
        forall|k: int| 0 <= k < n ==> #[trigger] amounts[k] == amounts[n + k],
    ensures
        amounts_total(n, amounts, n + i) == amounts_total(n, amounts, n) - amounts_total(
            n,
            amounts,
            i,
        ),
    decreases i,
{
    if i > 0 {
        lemma_pairs_cancel(amounts, n, i - 1);
        assert(amounts[i - 1] == amounts[n + (i - 1)]);
    }
}

/// A row of the matrix makes of the amounts what the row is said to make.
pub proof fn lemma_row_is_row_total(
    map: Seq<Single>,
    row: int,
    columns: nat,
    amounts: Seq<int>,
    count: int,
)
    requires
        0 <= count <= columns,
    ensures
        signed_total(matrix_row(map, row, columns), amounts, count) == row_total(
            map,
            row,
            columns as int,
            amounts,
            count,
        ),
    decreases count,
{
    if count > 0 {
        lemma_row_is_row_total(map, row, columns, amounts, count - 1);
        assert(matrix_row(map, row, columns)[count - 1] == map[cell(row, count - 1, columns as int)]);
    }
}

/// The amounts by the weights of the positions that they belong to.
pub open spec fn carried(weights: Seq<int>, positions: Seq<usize>, amounts: Seq<int>) -> Seq<int> {
    Seq::new(positions.len(), |c: int| weights[positions[c] as int] * amounts[c])
}

proof fn lemma_share_carried(
    weights: Seq<int>,
    positions: Seq<usize>,
    plus: int,
    row: int,
    amounts: Seq<int>,
    count: int,
)
    requires
        0 <= count <= positions.len(),
    ensures
        share(positions, plus, row, carried(weights, positions, amounts), count) == weights[row]
            * share(positions, plus, row, amounts, count),
    decreases count,
{
    if count > 0 {
        lemma_share_carried(weights, positions, plus, row, amounts, count - 1);
        let (w, a) = (weights[row], amounts[count - 1]);
        let rest = share(positions, plus, row, amounts, count - 1);
        assert(w * (rest + a) == w * rest + w * a) by (nonlinear_arith);
        assert(w * (rest + (-a)) == w * rest + (-(w * a))) by (nonlinear_arith);
        if positions[count - 1] == row {
            assert(carried(weights, positions, amounts)[count - 1] == w * a);
        }
    } else {
        assert(weights[row] * 0 == 0) by (nonlinear_arith);
    }
}

/// Numbers that a map spreads, together and by the weights of its rows, are the amounts together by the
/// weights of their positions.
proof fn lemma_spread_carries(
    map: Seq<Single>,
    rows: int,
    positions: Seq<usize>,
    plus: int,
    weights: Seq<int>,
    amounts: Seq<int>,
    spread: Seq<int>,
    count: int,
)
    requires
        is_incidence(map, rows, positions, plus),
        amounts.len() == positions.len(),
        0 <= count <= rows,
        forall|r: int|
            0 <= r < rows ==> #[trigger] spread[r] == row_total(
                map,
                r,
                positions.len() as int,
                amounts,
                positions.len() as int,
            ),
    ensures
        weighted_total(weights, spread, count) == shares_total(
            positions,
            plus,
            count,
            carried(weights, positions, amounts),
            positions.len() as int,
        ),
    decreases count,
{
    if count > 0 {
        lemma_spread_carries(map, rows, positions, plus, weights, amounts, spread, count - 1);
        law_map_adds_to_positions(map, rows, positions, plus, amounts, count - 1);
        lemma_share_carried(
            weights,
            positions,
            plus,
            count - 1,
            amounts,
            positions.len() as int,
        );
        assert(spread[count - 1] == row_total(
            map,
            count - 1,
            positions.len() as int,
            amounts,
            positions.len() as int,
        ));
    }
}

/// The same for numbers that are spread exactly.
proof fn lemma_spread_total(
    m: Operations,
    map: Seq<Single>,
    rows: nat,
    positions: Seq<usize>,
    plus: int,
    weights: Seq<int>,
    amounts: Seq<Single>,
    spread: Seq<Single>,
)
    requires
        is_incidence(map, rows as int, positions, plus),
        amounts.len() == positions.len(),
        forall|i: int| 0 <= i < positions.len() ==> #[trigger] positions[i] < rows,
        spreads_exactly(m, map, rows, amounts),
        spread.len() == rows,
        forall|r: int|
            0 <= r < rows ==> #[trigger] spread[r] == (m.dot)(
                matrix_row(map, r, amounts.len()),
                amounts,
            ),
    ensures
        weighted_total(weights, values_of(spread), rows as int) == amounts_total(
            plus,
            carried(weights, positions, values_of(amounts)),
            positions.len() as int,
        ),
{
    let n = positions.len() as int;
    assert forall|r: int| 0 <= r < rows implies #[trigger] values_of(spread)[r] == row_total(
        map,
        r,
        n,
        values_of(amounts),
        n,
    ) by {
        assert(spread[r] == (m.dot)(matrix_row(map, r, amounts.len()), amounts));
        lemma_row_is_row_total(map, r, amounts.len(), values_of(amounts), n);
    }
    lemma_spread_carries(
        map,
        rows as int,
        positions,
        plus,
        weights,
        values_of(amounts),
        values_of(spread),
        rows as int,
    );
    law_map_keeps_the_total(
        positions,
        plus,
        rows as int,
        carried(weights, positions, values_of(amounts)),
        n,
    );
}

/// Sums together are what their terms are together.
proof fn lemma_sums_total(m: Operations, weights: Seq<int>, a: Seq<Single>, b: Seq<Single>, count: int)
    requires
        sums_exactly(m, a, b),
        0 <= count <= a.len(),
        b.len() == a.len(),
    ensures
        weighted_total(weights, values_of(m.sums(a, b)), count) == weighted_total(
            weights,
            values_of(a),
            count,
        ) + weighted_total(weights, values_of(b), count),
    decreases count,
{
    if count > 0 {
        lemma_sums_total(m, weights, a, b, count - 1);
        let (w, x, y) = (weights[count - 1], a[count - 1].value(), b[count - 1].value());
        assert(m.sums(a, b)[count - 1].value() == x + y);
        assert(w * (x + y) == w * x + w * y) by (nonlinear_arith);
    }
}

/// Where numbers are in a ratio, so are they together.
proof fn lemma_ratio_total(weights: Seq<int>, a: Seq<int>, b: Seq<int>, c: int, d: int, count: int)
    requires
        forall|k: int| 0 <= k < count ==> #[trigger] a[k] * c == b[k] * d,
    ensures
        weighted_total(weights, a, count) * c == weighted_total(weights, b, count) * d,
    decreases count,
{
    if count > 0 {
        lemma_ratio_total(weights, a, b, c, d, count - 1);
        let (w, x, y) = (weights[count - 1], a[count - 1], b[count - 1]);
        let (s, t) = (weighted_total(weights, a, count - 1), weighted_total(weights, b, count - 1));
        assert(x * c == y * d);
        assert((s + w * x) * c == s * c + w * (x * c)) by (nonlinear_arith);
        assert((t + w * y) * d == t * d + w * (y * d)) by (nonlinear_arith);
    } else {
        assert(0 * c == 0 * d) by (nonlinear_arith);
    }
}

/// The columns of the joint map belong to particles.
proof fn lemma_joint_columns(walker: Walker)
    requires
        walker.wf(),
    ensures
        forall|i: int|
            0 <= i < walker.joint_columns().len() ==> #[trigger] walker.joint_columns()[i]
                < walker.n_particles,
{
    let n = walker.joint_pairs@.len() as int;
    assert forall|i: int| 0 <= i < walker.joint_columns().len() implies #[trigger] walker.joint_columns()[i]
        < walker.n_particles by {
        let joint = if i < n {
            i
        } else if i < 2 * n {
            i - n
        } else {
            i - 2 * n
        };
        law_joints_lie_between_edges(walker, joint);
    }
}

/// One column of the forces at the joints, spread over the particles, adds up to nothing.
proof fn lemma_forces_balance(
    walker: Walker,
    m: Operations,
    parents: Seq<Single>,
    children: Seq<Single>,
    forces: Seq<Single>,
    spread: Seq<Single>,
)
    requires
        walker.wf(),
        parents.len() == walker.joint_pairs@.len(),
        children.len() == walker.joint_pairs@.len(),
        forces == parents + negatives(m.sums(children, parents)) + children,
        sums_exactly(m, children, parents),
        spreads_exactly(m, walker.joint_map_combined@, walker.n_particles as nat, forces),
        spread.len() == walker.n_particles,
        forall|r: int|
            0 <= r < walker.n_particles ==> #[trigger] spread[r] == (m.dot)(
                matrix_row(walker.joint_map_combined@, r, forces.len()),
                forces,
            ),
    ensures
        weighted_total(
            Seq::new(walker.n_particles as nat, |k: int| 1int),
            values_of(spread),
            walker.n_particles as int,
        ) == 0,
{
    let ones = Seq::new(walker.n_particles as nat, |k: int| 1int);
    let columns = walker.joint_columns();
    let (p, c) = (values_of(parents), values_of(children));
    lemma_joint_columns(walker);
    assert forall|i: int| 0 <= i < forces.len() implies carried(ones, columns, values_of(forces))[i]
        == balanced(p, c)[i] by {
        let n = parents.len() as int;
        assert(columns[i] < walker.n_particles);
        if n <= i < 2 * n {
            let middle = m.sums(children, parents)[i - n];
            assert(forces[i] == middle.negated());
            law_negation_turns_the_value(middle);
        }
    }
    assert(carried(ones, columns, values_of(forces)) =~= balanced(p, c));
    lemma_spread_total(
        m,
        walker.joint_map_combined@,
        walker.n_particles as nat,
        columns,
        columns.len() as int,
        ones,
        forces,
        spread,
    );
    lemma_balanced_total(p, c);
}

/// Nothing is rounded where the forces at the joints are balanced and spread over the particles.
pub open spec fn forces_are_exact(m: Operations, walker: Walker, p: Field, action: Seq<Single>) -> bool {
    let (parents, children) = m.joint_ends(walker, p, action);
    let forces = m.joint_forces(parents, children);
    let (map, n) = (walker.joint_map_combined@, walker.n_particles as nat);
    &&& sums_exactly(m, children.x, parents.x)
    &&& sums_exactly(m, children.y, parents.y)
    &&& spreads_exactly(m, map, n, forces.x)
    &&& spreads_exactly(m, map, n, forces.y)
}

/// The torques at the joints move no momentum in or out of the walker: where nothing is rounded, their
/// forces on all particles together are nothing.
pub proof fn law_torques_add_no_momentum(
    walker: Walker,
    m: Operations,
    p: Field,
    action: Seq<Single>,
)
    requires
        walker.wf(),
        p.has(walker.n_particles as nat),
        action.len() == walker.joint_pairs@.len(),
        forces_are_exact(m, walker, p, action),
    ensures
        ({
            let (forces, n) = (m.torque_forces(walker, p, action), walker.n_particles as nat);
            let ones = Seq::new(n, |k: int| 1int);
            &&& weighted_total(ones, values_of(forces.x), n as int) == 0
            &&& weighted_total(ones, values_of(forces.y), n as int) == 0
        }),
{
    law_indices_name_particles(walker);
    let (parents, children) = m.joint_ends(walker, p, action);
    let forces = m.joint_forces(parents, children);
    let spread = m.torque_forces(walker, p, action);
    assert(forces.x.len() == forces.y.len());
    lemma_forces_balance(walker, m, parents.x, children.x, forces.x, spread.x);
    lemma_forces_balance(walker, m, parents.y, children.y, forces.y, spread.y);
}

/// The momentum of the particles by their masses, given one column of their velocities, or what their
/// center of mass is found by, given one of their places.
pub open spec fn moment(walker: Walker, column: Seq<Single>) -> int {
    weighted_total(values_of(walker.masses@), values_of(column), walker.n_particles as int)
}

/// Every particle has a mass, and nothing was rounded where it was inverted.
pub open spec fn inverts_exactly(walker: Walker) -> bool {
    forall|k: int|
        0 <= k < walker.n_particles ==> (#[trigger] walker.masses@[k]).value()
            * walker.inv_masses@[k].value() == unit() * unit()
}

/// Nothing is rounded in one column of what the lengths of the edges do.
pub open spec fn lengths_are_exact_in(
    m: Operations,
    walker: Walker,
    p: Seq<Single>,
    correction: Seq<Single>,
    shift: Seq<Single>,
) -> bool {
    let (q1, q2) = (
        m.quotients(walker.edge_w1@, walker.edge_w_sum@),
        m.quotients(walker.edge_w2@, walker.edge_w_sum@),
    );
    &&& divides_exactly(m, walker.edge_w1@, walker.edge_w_sum@)
    &&& divides_exactly(m, walker.edge_w2@, walker.edge_w_sum@)
    &&& multiplies_exactly(m, correction, q1)
    &&& multiplies_exactly(m, correction, q2)
    &&& spreads_exactly(
        m,
        walker.edge_map_combined@,
        walker.n_particles as nat,
        m.products(correction, q1) + m.products(correction, q2),
    )
    &&& sums_exactly(m, p, shift)
}

/// What an edge gives one of its ends by mass, it takes from the other.
proof fn lemma_edge_balances(
    u: int,
    sum: int,
    correction: int,
    mass_1: int,
    w_1: int,
    q_1: int,
    c_1: int,
    mass_2: int,
    w_2: int,
    q_2: int,
    c_2: int,
)
    requires
        u > 0,
        sum != 0,
        mass_1 * w_1 == u * u,
        mass_2 * w_2 == u * u,
        q_1 * sum == w_1 * u,
        q_2 * sum == w_2 * u,
        c_1 * u == correction * q_1,
        c_2 * u == correction * q_2,
    ensures
        mass_1 * c_1 == mass_2 * c_2,
{
    let whole = correction * (u * u * u);
    assert((mass_1 * c_1) * (u * sum) == whole) by (nonlinear_arith)
        requires
            mass_1 * w_1 == u * u,
            q_1 * sum == w_1 * u,
            c_1 * u == correction * q_1,
            whole == correction * (u * u * u),
    {
        assert((mass_1 * c_1) * (u * sum) == mass_1 * ((c_1 * u) * sum));
        assert((correction * q_1) * sum == correction * (q_1 * sum));
        assert(mass_1 * (correction * (w_1 * u)) == correction * ((mass_1 * w_1) * u));
    }
    assert((mass_2 * c_2) * (u * sum) == whole) by (nonlinear_arith)
        requires
            mass_2 * w_2 == u * u,
            q_2 * sum == w_2 * u,
            c_2 * u == correction * q_2,
            whole == correction * (u * u * u),
    {
        assert((mass_2 * c_2) * (u * sum) == mass_2 * ((c_2 * u) * sum));
        assert((correction * q_2) * sum == correction * (q_2 * sum));
        assert(mass_2 * (correction * (w_2 * u)) == correction * ((mass_2 * w_2) * u));
    }
    assert(mass_1 * c_1 == mass_2 * c_2) by (nonlinear_arith)
        requires
            (mass_1 * c_1) * (u * sum) == (mass_2 * c_2) * (u * sum),
            u > 0,
            sum != 0,
    ;
}

/// One column of what the lengths of the edges do keeps its moment.
proof fn lemma_lengths_keep_the_moment(
    walker: Walker,
    m: Operations,
    p: Seq<Single>,
    correction: Seq<Single>,
    shift: Seq<Single>,
)
    requires
        walker.wf(),
        inverts_exactly(walker),
        p.len() == walker.n_particles,
        correction.len() == walker.edges@.len(),
        lengths_are_exact_in(m, walker, p, correction, shift),
        shift.len() == walker.n_particles,
        ({
            let amounts = m.products(
                correction,
                m.quotients(walker.edge_w1@, walker.edge_w_sum@),
            ) + m.products(correction, m.quotients(walker.edge_w2@, walker.edge_w_sum@));
            forall|r: int|
                0 <= r < walker.n_particles ==> #[trigger] shift[r] == (m.dot)(
                    matrix_row(walker.edge_map_combined@, r, amounts.len()),
                    amounts,
                )
        }),
    ensures
        moment(walker, m.sums(p, shift)) == moment(walker, p),
{
    law_indices_name_particles(walker);
    lemma_unit_is_positive();
    let (n, e) = (walker.n_particles as nat, walker.edges@.len() as int);
    let masses = values_of(walker.masses@);
    let q1 = m.quotients(walker.edge_w1@, walker.edge_w_sum@);
    let q2 = m.quotients(walker.edge_w2@, walker.edge_w_sum@);
    let (c1, c2) = (m.products(correction, q1), m.products(correction, q2));
    let amounts = c1 + c2;
    let columns = walker.edge_columns();
    let moved = carried(masses, columns, values_of(amounts));
    assert forall|i: int| 0 <= i < columns.len() implies #[trigger] columns[i] < n by {
        let edge = if i < e {
            i
        } else {
            i - e
        };
        law_edges_reach_every_particle_once(walker, edge + 1);
    }
    assert forall|i: int| 0 <= i < e implies #[trigger] moved[i] == moved[e + i] by {
        law_edges_reach_every_particle_once(walker, i + 1);
        let (a, b) = (walker.edges@[i].0 as int, walker.edges@[i].1 as int);
        assert(columns[i] == a && columns[e + i] == b);
        assert(walker.edge_idx_1@[i] == a && walker.edge_idx_2@[i] == b);
        assert(walker.edge_w1@[i] == walker.inv_masses@[a]);
        assert(walker.edge_w2@[i] == walker.inv_masses@[b]);
        assert(q1[i].value() * walker.edge_w_sum@[i].value() == walker.edge_w1@[i].value() * unit());
        assert(q2[i].value() * walker.edge_w_sum@[i].value() == walker.edge_w2@[i].value() * unit());
        assert(c1[i].value() * unit() == correction[i].value() * q1[i].value());
        assert(c2[i].value() * unit() == correction[i].value() * q2[i].value());
        assert(walker.masses@[a].value() * walker.inv_masses@[a].value() == unit() * unit());
        assert(walker.masses@[b].value() * walker.inv_masses@[b].value() == unit() * unit());
        lemma_weight_sums_are_not_zero(walker, i);
        lemma_edge_balances(
            unit(),
            walker.edge_w_sum@[i].value(),
            correction[i].value(),
            walker.masses@[a].value(),
            walker.inv_masses@[a].value(),
            q1[i].value(),
            c1[i].value(),
            walker.masses@[b].value(),
            walker.inv_masses@[b].value(),
            q2[i].value(),
            c2[i].value(),
        );
    }
    lemma_pairs_cancel(moved, e, e);
    lemma_spread_total(m, walker.edge_map_combined@, n, columns, e, masses, amounts, shift);
    lemma_sums_total(m, masses, p, shift, n as int);
}

/// No sum of the weights of an edge is zero.
proof fn lemma_weight_sums_are_not_zero(walker: Walker, edge: int)
    requires
        walker.wf(),
        0 <= edge < walker.edges@.len(),
    ensures
        walker.edge_w_sum@[edge].value() != 0,
{
    let sum = walker.edge_w_sum@[edge];
    lemma_key_orders(sum, Single::of(ZERO));
    lemma_key_orders(Single::of(ZERO), Single::of(ONE_MILLIONTH));
    assert(!sum.below(Single::of(ONE_MILLIONTH)));
    assert(Single::of(ZERO).value() == 0);
}

/// Nothing is rounded where one column of a gradient is multiplied for its correction.
pub open spec fn corrects_exactly(
    m: Operations,
    gradient: Seq<Single>,
    lambda: Seq<Single>,
    weights: Seq<Single>,
) -> bool {
    &&& multiplies_exactly(m, gradient, lambda)
    &&& multiplies_exactly(m, m.products(gradient, lambda), weights)
}

/// Nothing is rounded in one column of what the ranges of the joints do.
pub open spec fn angles_are_exact_in(
    m: Operations,
    walker: Walker,
    p: Seq<Single>,
    gp: Seq<Single>,
    gc: Seq<Single>,
    lambda: Seq<Single>,
    shift: Seq<Single>,
) -> bool {
    let gj = negatives(m.sums(gp, gc));
    &&& sums_exactly(m, gp, gc)
    &&& corrects_exactly(m, gp, lambda, walker.joint_w_p@)
    &&& corrects_exactly(m, gj, lambda, walker.joint_w_j@)
    &&& corrects_exactly(m, gc, lambda, walker.joint_w_c@)
    &&& spreads_exactly(
        m,
        walker.joint_map_combined@,
        walker.n_particles as nat,
        joint_amounts(m, walker, gp, gc, lambda),
    )
    &&& sums_exactly(m, p, shift)
}

/// One column of the corrections of the first particles of the joints, then of the second, then of the
/// third.
pub open spec fn joint_amounts(
    m: Operations,
    walker: Walker,
    gp: Seq<Single>,
    gc: Seq<Single>,
    lambda: Seq<Single>,
) -> Seq<Single> {
    let gj = negatives(m.sums(gp, gc));
    m.products(m.products(gp, lambda), walker.joint_w_p@) + m.products(
        m.products(gj, lambda),
        walker.joint_w_j@,
    ) + m.products(m.products(gc, lambda), walker.joint_w_c@)
}

/// A correction by mass is the gradient by the multiplier.
proof fn lemma_correction_by_mass(u: int, mass: int, w: int, g: int, lambda: int, part: int, d: int)
    requires
        u > 0,
        mass * w == u * u,
        part * u == g * lambda,
        d * u == part * w,
    ensures
        mass * d == g * lambda,
{
    assert((mass * d) * (u * u) == (g * lambda) * (u * u)) by (nonlinear_arith)
        requires
            mass * w == u * u,
            part * u == g * lambda,
            d * u == part * w,
    {
        assert((mass * d) * (u * u) == mass * ((d * u) * u));
        assert((part * w) * u == (part * u) * w);
        assert(mass * ((g * lambda) * w) == (g * lambda) * (mass * w));
    }
    assert(mass * d == g * lambda) by (nonlinear_arith)
        requires
            (mass * d) * (u * u) == (g * lambda) * (u * u),
            u > 0,
    ;
}

/// One column of what the ranges of the joints do keeps its moment.
proof fn lemma_angles_keep_the_moment(
    walker: Walker,
    m: Operations,
    p: Seq<Single>,
    gp: Seq<Single>,
    gc: Seq<Single>,
    lambda: Seq<Single>,
    shift: Seq<Single>,
)
    requires
        walker.wf(),
        inverts_exactly(walker),
        p.len() == walker.n_particles,
        gp.len() == walker.joint_pairs@.len(),
        gc.len() == walker.joint_pairs@.len(),
        angles_are_exact_in(m, walker, p, gp, gc, lambda, shift),
        shift.len() == walker.n_particles,
        ({
            let amounts = joint_amounts(m, walker, gp, gc, lambda);
            forall|r: int|
                0 <= r < walker.n_particles ==> #[trigger] shift[r] == (m.dot)(
                    matrix_row(walker.joint_map_combined@, r, amounts.len()),
                    amounts,
                )
        }),
    ensures
        moment(walker, m.sums(p, shift)) == moment(walker, p),
{
    law_indices_name_particles(walker);
    lemma_unit_is_positive();
    lemma_joint_columns(walker);
    let (n, j) = (walker.n_particles as nat, walker.joint_pairs@.len() as int);
    let masses = values_of(walker.masses@);
    let gj = negatives(m.sums(gp, gc));
    let amounts = joint_amounts(m, walker, gp, gc, lambda);
    let columns = walker.joint_columns();
    let moved = carried(masses, columns, values_of(amounts));
    let parents = Seq::new(j as nat, |i: int| gp[i].value() * lambda[i].value());
    let children = Seq::new(j as nat, |i: int| gc[i].value() * lambda[i].value());
    assert forall|i: int| 0 <= i < j implies {
        &&& #[trigger] moved[i] == parents[i]
        &&& moved[j + i] == -(parents[i] + children[i])
        &&& moved[2 * j + i] == children[i]
    } by {
        law_joints_lie_between_edges(walker, i);
        let (a, b, c) = walker.joint_pairs@[i];
        assert(columns[i] == a && columns[j + i] == b && columns[2 * j + i] == c);
        assert(walker.joint_idx_p@[i] == a && walker.joint_idx_j@[i] == b && walker.joint_idx_c@[i]
            == c);
        assert(walker.joint_w_p@[i] == walker.inv_masses@[a as int]);
        assert(walker.joint_w_j@[i] == walker.inv_masses@[b as int]);
        assert(walker.joint_w_c@[i] == walker.inv_masses@[c as int]);
        lemma_one_correction(walker, m, gp, lambda, walker.joint_w_p@, i, a as int);
        lemma_one_correction(walker, m, gj, lambda, walker.joint_w_j@, i, b as int);
        lemma_one_correction(walker, m, gc, lambda, walker.joint_w_c@, i, c as int);
        let middle = m.sums(gp, gc)[i];
        assert(gj[i] == middle.negated());
        law_negation_turns_the_value(middle);
        assert(middle.value() == gp[i].value() + gc[i].value());
        assert((-(gp[i].value() + gc[i].value())) * lambda[i].value() == -(gp[i].value()
            * lambda[i].value() + gc[i].value() * lambda[i].value())) by (nonlinear_arith);
    }
    assert forall|i: int| 0 <= i < 3 * j implies moved[i] == balanced(parents, children)[i] by {
        if i < j {
            assert(moved[i] == parents[i]);
        } else if i < 2 * j {
            assert(moved[i - j] == parents[i - j]);
        } else {
            assert(moved[i - 2 * j] == parents[i - 2 * j]);
        }
    }
    assert(moved =~= balanced(parents, children));
    lemma_balanced_total(parents, children);
    lemma_spread_total(
        m,
        walker.joint_map_combined@,
        n,
        columns,
        columns.len() as int,
        masses,
        amounts,
        shift,
    );
    lemma_sums_total(m, masses, p, shift, n as int);
}

/// The correction of one particle of a joint, by its mass.
proof fn lemma_one_correction(
    walker: Walker,
    m: Operations,
    gradient: Seq<Single>,
    lambda: Seq<Single>,
    weights: Seq<Single>,
    i: int,
    particle: int,
)
    requires
        inverts_exactly(walker),
        0 <= particle < walker.n_particles,
        0 <= i < gradient.len(),
        weights[i] == walker.inv_masses@[particle],
        corrects_exactly(m, gradient, lambda, weights),
    ensures
        walker.masses@[particle].value() * m.products(
            m.products(gradient, lambda),
            weights,
        )[i].value() == gradient[i].value() * lambda[i].value(),
{
    lemma_unit_is_positive();
    let part = m.products(gradient, lambda);
    let d = m.products(part, weights);
    assert(part[i].value() * unit() == gradient[i].value() * lambda[i].value());
    assert(d[i].value() * unit() == part[i].value() * weights[i].value());
    assert(walker.masses@[particle].value() * walker.inv_masses@[particle].value() == unit()
        * unit());
    lemma_correction_by_mass(
        unit(),
        walker.masses@[particle].value(),
        weights[i].value(),
        gradient[i].value(),
        lambda[i].value(),
        part[i].value(),
        d[i].value(),
    );
}

/// Nothing is rounded in a round of constraints from `p`, in which no particle touches the ground.
pub open spec fn round_is_exact(m: Operations, walker: Walker, p: Field) -> bool {
    let correction = m.length_correction(walker, p);
    let shift = m.length_shift(walker, p);
    let held = m.hold_lengths(walker, p);
    let (gp, gc) = m.gradients(walker, held);
    let lambda = m.multipliers(walker, held, gp, gc);
    let turn = m.angle_shift(walker, gp, gc, lambda);
    let turned = m.hold_angles(walker, held);
    let still = repeated(Single::of(ZERO), walker.n_particles as nat);
    &&& lengths_are_exact_in(m, walker, p.x, correction.x, shift.x)
    &&& lengths_are_exact_in(m, walker, p.y, correction.y, shift.y)
    &&& angles_are_exact_in(m, walker, held.x, gp.x, gc.x, lambda, turn.x)
    &&& angles_are_exact_in(m, walker, held.y, gp.y, gc.y, lambda, turn.y)
    &&& forall|k: int|
        0 <= k < walker.n_particles ==> !touches_ground(#[trigger] turned.y[k])
            && !turned.y[k].below(Single::of(ZERO))
    &&& sums_exactly(m, turned.x, still)
    &&& sums_exactly(m, turned.y, still)
}

/// A round of constraints in the air keeps the center of mass where it is.
proof fn lemma_round_keeps_the_moment(walker: Walker, m: Operations, start: Field, p: Field)
    requires
        walker.wf(),
        inverts_exactly(walker),
        start.has(walker.n_particles as nat),
        p.has(walker.n_particles as nat),
        round_is_exact(m, walker, p),
    ensures
        m.round(walker, start, p).has(walker.n_particles as nat),
        moment(walker, m.round(walker, start, p).x) == moment(walker, p.x),
        moment(walker, m.round(walker, start, p).y) == moment(walker, p.y),
{
    law_indices_name_particles(walker);
    let n = walker.n_particles as nat;
    let correction = m.length_correction(walker, p);
    let shift = m.length_shift(walker, p);
    lemma_lengths_keep_the_moment(walker, m, p.x, correction.x, shift.x);
    lemma_lengths_keep_the_moment(walker, m, p.y, correction.y, shift.y);
    let held = m.hold_lengths(walker, p);
    let (gp, gc) = m.gradients(walker, held);
    let lambda = m.multipliers(walker, held, gp, gc);
    let turn = m.angle_shift(walker, gp, gc, lambda);
    lemma_angles_keep_the_moment(walker, m, held.x, gp.x, gc.x, lambda, turn.x);
    lemma_angles_keep_the_moment(walker, m, held.y, gp.y, gc.y, lambda, turn.y);
    let turned = m.hold_angles(walker, held);
    let still = repeated(Single::of(ZERO), n);
    let pull = m.products(
        negatives(m.differences(turned.x, start.x)),
        repeated(walker.config.friction, turned.x.len()),
    );
    assert(held_back(turned.y, pull) =~= still);
    assert(raised(turned.y) =~= still);
    let masses = values_of(walker.masses@);
    lemma_sums_total(m, masses, turned.x, still, n as int);
    lemma_sums_total(m, masses, turned.y, still, n as int);
    lemma_zeros_weigh_nothing(masses, n, n as int);
}

proof fn lemma_zeros_weigh_nothing(weights: Seq<int>, n: nat, count: int)
    requires
        0 <= count <= n,
    ensures
        weighted_total(weights, values_of(repeated(Single::of(ZERO), n)), count) == 0,
    decreases count,
{
    if count > 0 {
        lemma_zeros_weigh_nothing(weights, n, count - 1);
        assert(Single::of(ZERO).value() == 0);
        assert(weights[count - 1] * 0 == 0) by (nonlinear_arith);
    }
}

/// Rounds of constraints in the air keep the center of mass where it is.
proof fn lemma_rounds_keep_the_moment(walker: Walker, m: Operations, start: Field, p: Field, count: nat)
    requires
        walker.wf(),
        inverts_exactly(walker),
        start.has(walker.n_particles as nat),
        p.has(walker.n_particles as nat),
        forall|k: nat| k < count ==> round_is_exact(m, walker, #[trigger] m.rounds(walker, start, p, k)),
    ensures
        m.rounds(walker, start, p, count).has(walker.n_particles as nat),
        moment(walker, m.rounds(walker, start, p, count).x) == moment(walker, p.x),
        moment(walker, m.rounds(walker, start, p, count).y) == moment(walker, p.y),
    decreases count,
{
    if count > 0 {
        let last = (count - 1) as nat;
        lemma_rounds_keep_the_moment(walker, m, start, p, last);
        assert(round_is_exact(m, walker, m.rounds(walker, start, p, last)));
        lemma_round_keeps_the_moment(walker, m, start, m.rounds(walker, start, p, last));
    }
}

/// Nothing is rounded in one column of the prediction.
pub open spec fn prediction_is_exact_in(
    m: Operations,
    walker: Walker,
    gravity: Seq<Single>,
    forces: Seq<Single>,
    v: Seq<Single>,
    p: Seq<Single>,
) -> bool {
    let dt = repeated(walker.config.time_step, p.len());
    let push = m.products(forces, walker.inv_masses@);
    let kick = m.products(m.sums(gravity, push), dt);
    let drift = m.products(m.sums(v, kick), dt);
    &&& multiplies_exactly(m, forces, walker.inv_masses@)
    &&& sums_exactly(m, gravity, push)
    &&& multiplies_exactly(m, m.sums(gravity, push), dt)
    &&& sums_exactly(m, v, kick)
    &&& multiplies_exactly(m, m.sums(v, kick), dt)
    &&& sums_exactly(m, p, drift)
}

/// Products by the same number together are what the numbers are together, by that number.
proof fn lemma_products_total(m: Operations, weights: Seq<int>, a: Seq<Single>, by: Single)
    requires
        multiplies_exactly(m, a, repeated(by, a.len())),
    ensures
        weighted_total(
            weights,
            values_of(m.products(a, repeated(by, a.len()))),
            a.len() as int,
        ) * unit() == weighted_total(weights, values_of(a), a.len() as int) * by.value(),
{
    let r = m.products(a, repeated(by, a.len()));
    assert forall|k: int| 0 <= k < a.len() implies #[trigger] values_of(r)[k] * unit() == values_of(
        a,
    )[k] * by.value() by {
        assert(r[k].value() * unit() == a[k].value() * repeated(by, a.len())[k].value());
    }
    lemma_ratio_total(weights, values_of(r), values_of(a), unit(), by.value(), a.len() as int);
}

/// Forces together have the moment of the accelerations that they cause.
proof fn lemma_pushes_total(walker: Walker, m: Operations, forces: Seq<Single>, count: int)
    requires
        walker.wf(),
        inverts_exactly(walker),
        multiplies_exactly(m, forces, walker.inv_masses@),
        forces.len() == walker.n_particles,
        0 <= count <= walker.n_particles,
    ensures
        weighted_total(
            values_of(walker.masses@),
            values_of(m.products(forces, walker.inv_masses@)),
            count,
        ) == unit() * weighted_total(
            Seq::new(walker.n_particles as nat, |k: int| 1int),
            values_of(forces),
            count,
        ),
    decreases count,
{
    let ones = Seq::new(walker.n_particles as nat, |k: int| 1int);
    if count > 0 {
        lemma_unit_is_positive();
        lemma_pushes_total(walker, m, forces, count - 1);
        let k = count - 1;
        let (u, mass, w) = (unit(), walker.masses@[k].value(), walker.inv_masses@[k].value());
        let (f, push) = (forces[k].value(), m.products(forces, walker.inv_masses@)[k].value());
        assert(push * u == f * w);
        assert(mass * w == u * u);
        assert(mass * push == u * f) by (nonlinear_arith)
            requires
                push * u == f * w,
                mass * w == u * u,
                u > 0,
        {
            assert((mass * push) * u == mass * (f * w));
            assert(mass * (f * w) == f * (mass * w));
            assert(f * (u * u) == (u * f) * u);
        }
        let rest = weighted_total(ones, values_of(forces), k);
        assert(u * (rest + 1 * f) == u * rest + u * f) by (nonlinear_arith);
    } else {
        assert(unit() * 0 == 0) by (nonlinear_arith);
    }
}

/// One column of the prediction moves the center of mass by its speed and by gravity.
proof fn lemma_prediction_moves_the_moment(
    walker: Walker,
    m: Operations,
    gravity: Seq<Single>,
    forces: Seq<Single>,
    v: Seq<Single>,
    p: Seq<Single>,
    predicted: Seq<Single>,
)
    requires
        walker.wf(),
        inverts_exactly(walker),
        gravity.len() == walker.n_particles,
        forces.len() == walker.n_particles,
        v.len() == walker.n_particles,
        p.len() == walker.n_particles,
        prediction_is_exact_in(m, walker, gravity, forces, v, p),
        weighted_total(
            Seq::new(walker.n_particles as nat, |k: int| 1int),
            values_of(forces),
            walker.n_particles as int,
        ) == 0,
        ({
            let dt = repeated(walker.config.time_step, p.len());
            let push = m.products(forces, walker.inv_masses@);
            let kick = m.products(m.sums(gravity, push), dt);
            predicted == m.sums(p, m.products(m.sums(v, kick), dt))
        }),
    ensures
        falls_freely(
            walker,
            moment(walker, gravity),
            moment(walker, v),
            moment(walker, p),
            moment(walker, predicted),
        ),
{
    let (n, by) = (walker.n_particles as int, walker.config.time_step);
    let masses = values_of(walker.masses@);
    let dt = repeated(by, p.len());
    let push = m.products(forces, walker.inv_masses@);
    let acceleration = m.sums(gravity, push);
    let kick = m.products(acceleration, dt);
    let kicked = m.sums(v, kick);
    let drift = m.products(kicked, dt);
    lemma_pushes_total(walker, m, forces, n);
    assert(unit() * 0 == 0) by (nonlinear_arith);
    lemma_sums_total(m, masses, gravity, push, n);
    lemma_products_total(m, masses, acceleration, by);
    lemma_sums_total(m, masses, v, kick, n);
    lemma_products_total(m, masses, kicked, by);
    lemma_sums_total(m, masses, p, drift, n);
    let (u, d) = (unit(), by.value());
    let (g, mv, mk, md) = (
        moment(walker, gravity),
        moment(walker, v),
        moment(walker, kick),
        moment(walker, drift),
    );
    assert(mk * u == g * d);
    assert(md * u == (mv + mk) * d);
    let (before, after) = (moment(walker, p), moment(walker, predicted));
    assert(after == before + md);
    assert((after - before) * (u * u) == mv * d * u + g * d * d) by (nonlinear_arith)
        requires
            after - before == md,
            md * u == (mv + mk) * d,
            mk * u == g * d,
    {
        assert(md * (u * u) == (md * u) * u);
        assert(((mv + mk) * d) * u == mv * d * u + (mk * u) * d);
        assert((g * d) * d == g * d * d);
    }
}

/// In one step the center of mass moves by its speed, which gravity has changed: the moment `after` is
/// that `before`, and that of the velocities and of gravity by the time step.
pub open spec fn falls_freely(
    walker: Walker,
    gravity: int,
    speed: int,
    before: int,
    after: int,
) -> bool {
    let (u, d) = (unit(), walker.config.time_step.value());
    (after - before) * (u * u) == speed * d * u + gravity * d * d
}

/// Nothing is rounded in a step of a walker in the air.
pub open spec fn flies_exactly(
    m: Operations,
    walker: Walker,
    p: Field,
    v: Field,
    action: Seq<Single>,
) -> bool {
    let forces = m.torque_forces(walker, p, action);
    let first = m.predicted(walker, p, v, action);
    &&& inverts_exactly(walker)
    &&& forces_are_exact(m, walker, p, action)
    &&& prediction_is_exact_in(m, walker, walker.gravity().x, forces.x, v.x, p.x)
    &&& prediction_is_exact_in(m, walker, walker.gravity().y, forces.y, v.y, p.y)
    &&& forall|k: nat|
        k < walker.config.constraint_iterations ==> round_is_exact(
            m,
            walker,
            #[trigger] m.rounds(walker, p, first, k),
        )
}

/// In the air the center of mass falls freely, whatever the torques and the constraints do: where nothing
/// is rounded, a step moves it on at its speed, with gravity alone changing that.
pub proof fn law_in_the_air_the_center_of_mass_falls_freely(
    walker: Walker,
    m: Operations,
    p: Field,
    v: Field,
    action: Seq<Single>,
)
    requires
        walker.wf(),
        p.has(walker.n_particles as nat),
        v.has(walker.n_particles as nat),
        action.len() == walker.joint_pairs@.len(),
        flies_exactly(m, walker, p, v, action),
    ensures
        falls_freely(
            walker,
            0,
            moment(walker, v.x),
            moment(walker, p.x),
            moment(walker, m.arrival(walker, p, v, action).x),
        ),
        falls_freely(
            walker,
            moment(walker, walker.gravity().y),
            moment(walker, v.y),
            moment(walker, p.y),
            moment(walker, m.arrival(walker, p, v, action).y),
        ),
{
    let n = walker.n_particles as nat;
    let forces = m.torque_forces(walker, p, action);
    let first = m.predicted(walker, p, v, action);
    let gravity = walker.gravity();
    law_torques_add_no_momentum(walker, m, p, action);
    lemma_zeros_weigh_nothing(values_of(walker.masses@), n, n as int);
    lemma_prediction_moves_the_moment(walker, m, gravity.x, forces.x, v.x, p.x, first.x);
    lemma_prediction_moves_the_moment(walker, m, gravity.y, forces.y, v.y, p.y, first.y);
    lemma_rounds_keep_the_moment(
        walker,
        m,
        p,
        first,
        walker.config.constraint_iterations as nat,
    );
}

} // verus!
