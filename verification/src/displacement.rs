//! A walker walks alike wherever it stands.
//!
//! The law here is about what holds where rounding does not tell the places apart: it asks of the
//! operations that moving the walker along does not change the differences that occur, and that it does
//! not matter whether it is done before or after the sums that occur.

use crate::arithmetic::Operations;
use crate::contact::{held_back, raised};
use crate::field::Field;
use crate::lanes::{negatives, repeated};
use crate::single::Single;
use crate::walker::{law_indices_name_particles, Walker};
use vstd::prelude::*;

verus! {

/// The vectors moved along by `by`.
pub open spec fn moved_along(m: Operations, p: Field, by: Single) -> Field {
    Field { x: m.sums(p.x, repeated(by, p.x.len())), y: p.y }
}

/// Moving both along by `by` does not change the differences of `a` and `b`.
pub open spec fn keeps_apart(m: Operations, a: Field, b: Field, by: Single) -> bool {
    m.minus(moved_along(m, a, by), moved_along(m, b, by)) == m.minus(a, b)
}

/// It does not matter whether `a` is moved along by `by` before or after `b` is added.
pub open spec fn adds_along(m: Operations, a: Field, b: Field, by: Single) -> bool {
    m.plus(moved_along(m, a, by), b) == moved_along(m, m.plus(a, b), by)
}

/// Moving along by `by` does not change the edges at the joints.
pub open spec fn keeps_arms(m: Operations, walker: Walker, p: Field, by: Single) -> bool {
    &&& keeps_apart(m, p.selected(walker.joint_idx_j@), p.selected(walker.joint_idx_p@), by)
    &&& keeps_apart(m, p.selected(walker.joint_idx_c@), p.selected(walker.joint_idx_j@), by)
}

/// What the ground does to positions in a step that started from `start`.
pub open spec fn ground_shift(m: Operations, walker: Walker, start: Field, p: Field) -> Field {
    let pull = m.products(
        negatives(m.differences(p.x, start.x)),
        repeated(walker.config.friction, p.x.len()),
    );
    Field { x: held_back(p.y, pull), y: raised(p.y) }
}

/// Rounding does not tell the places apart in a round of constraints.
pub open spec fn round_moves_along(
    m: Operations,
    walker: Walker,
    start: Field,
    p: Field,
    by: Single,
) -> bool {
    let held = m.hold_lengths(walker, p);
    let (gp, gc) = m.gradients(walker, held);
    let lambda = m.multipliers(walker, held, gp, gc);
    let turned = m.hold_angles(walker, held);
    &&& keeps_apart(m, p.selected(walker.edge_idx_2@), p.selected(walker.edge_idx_1@), by)
    &&& adds_along(m, p, m.length_shift(walker, p), by)
    &&& keeps_arms(m, walker, held, by)
    &&& adds_along(m, held, m.angle_shift(walker, gp, gc, lambda), by)
    &&& keeps_apart(m, turned, start, by)
    &&& adds_along(m, turned, ground_shift(m, walker, start, turned), by)
}

/// Rounding does not tell the places apart in a step.
pub open spec fn step_moves_along(
    m: Operations,
    walker: Walker,
    p: Field,
    v: Field,
    action: Seq<Single>,
    by: Single,
) -> bool {
    let dt = walker.config.time_step;
    let kicked = m.plus(v, m.times(m.acceleration(walker, p, action), dt));
    let first = m.predicted(walker, p, v, action);
    &&& keeps_arms(m, walker, p, by)
    &&& adds_along(m, p, m.times(kicked, dt), by)
    &&& forall|k: nat|
        k < walker.config.constraint_iterations ==> round_moves_along(
            m,
            walker,
            p,
            #[trigger] m.rounds(walker, p, first, k),
            by,
        )
    &&& keeps_apart(m, m.arrival(walker, p, v, action), p, by)
}

proof fn lemma_moved_selected(m: Operations, p: Field, by: Single, indices: Seq<i32>)
    requires
        p.has(p.x.len()),
        forall|i: int| 0 <= i < indices.len() ==> 0 <= #[trigger] indices[i] < p.x.len(),
    ensures
        moved_along(m, p, by).selected(indices) == moved_along(m, p.selected(indices), by),
{
    assert(moved_along(m, p, by).selected(indices).x =~= moved_along(m, p.selected(indices), by).x);
}

/// The edges at the joints are the same wherever the walker stands.
proof fn lemma_moved_arms(walker: Walker, m: Operations, p: Field, by: Single)
    requires
        walker.wf(),
        p.has(walker.n_particles as nat),
        keeps_arms(m, walker, p, by),
    ensures
        walker.towards(m, moved_along(m, p, by)) == walker.towards(m, p),
        walker.onwards(m, moved_along(m, p, by)) == walker.onwards(m, p),
{
    law_indices_name_particles(walker);
    lemma_moved_selected(m, p, by, walker.joint_idx_p@);
    lemma_moved_selected(m, p, by, walker.joint_idx_j@);
    lemma_moved_selected(m, p, by, walker.joint_idx_c@);
}

/// A round of constraints leads from moved positions to moved positions.
proof fn lemma_moved_round(walker: Walker, m: Operations, start: Field, p: Field, by: Single)
    requires
        walker.wf(),
        start.has(walker.n_particles as nat),
        p.has(walker.n_particles as nat),
        round_moves_along(m, walker, start, p, by),
    ensures
        m.round(walker, moved_along(m, start, by), moved_along(m, p, by)) == moved_along(
            m,
            m.round(walker, start, p),
            by,
        ),
        m.round(walker, start, p).has(walker.n_particles as nat),
{
    law_indices_name_particles(walker);
    let q = moved_along(m, p, by);
    lemma_moved_selected(m, p, by, walker.edge_idx_1@);
    lemma_moved_selected(m, p, by, walker.edge_idx_2@);
    assert(m.length_shift(walker, q) == m.length_shift(walker, p));
    let held = m.hold_lengths(walker, p);
    lemma_moved_arms(walker, m, held, by);
    let turned = m.hold_angles(walker, held);
    assert(m.hold_angles(walker, moved_along(m, held, by)) == moved_along(m, turned, by));
    assert(m.differences(moved_along(m, turned, by).x, moved_along(m, start, by).x)
        == m.differences(turned.x, start.x));
    assert(m.hold_ground(walker, start, turned) == m.plus(
        turned,
        ground_shift(m, walker, start, turned),
    ));
}

/// Rounds of constraints lead from moved positions to moved positions.
proof fn lemma_moved_rounds(
    walker: Walker,
    m: Operations,
    start: Field,
    p: Field,
    by: Single,
    count: nat,
)
    requires
        walker.wf(),
        start.has(walker.n_particles as nat),
        p.has(walker.n_particles as nat),
        forall|k: nat|
            k < count ==> round_moves_along(
                m,
                walker,
                start,
                #[trigger] m.rounds(walker, start, p, k),
                by,
            ),
    ensures
        m.rounds(walker, moved_along(m, start, by), moved_along(m, p, by), count) == moved_along(
            m,
            m.rounds(walker, start, p, count),
            by,
        ),
        m.rounds(walker, start, p, count).has(walker.n_particles as nat),
    decreases count,
{
    if count > 0 {
        let last = (count - 1) as nat;
        lemma_moved_rounds(walker, m, start, p, by, last);
        assert(round_moves_along(m, walker, start, m.rounds(walker, start, p, last), by));
        lemma_moved_round(walker, m, start, m.rounds(walker, start, p, last), by);
    }
}

/// A walker walks alike wherever it stands: where rounding does not tell the places apart, a walker that
/// is moved along by `by` arrives as much further along, with the same velocities.
pub proof fn law_walkers_walk_alike_everywhere(
    walker: Walker,
    m: Operations,
    p: Field,
    v: Field,
    action: Seq<Single>,
    by: Single,
)
    requires
        walker.wf(),
        p.has(walker.n_particles as nat),
        v.has(walker.n_particles as nat),
        action.len() == walker.joint_pairs@.len(),
        step_moves_along(m, walker, p, v, action, by),
    ensures
        m.arrival(walker, moved_along(m, p, by), v, action) == moved_along(
            m,
            m.arrival(walker, p, v, action),
            by,
        ),
        m.velocity(
            walker,
            moved_along(m, p, by),
            m.arrival(walker, moved_along(m, p, by), v, action),
        ) == m.velocity(walker, p, m.arrival(walker, p, v, action)),
{
    lemma_moved_arms(walker, m, p, by);
    let first = m.predicted(walker, p, v, action);
    assert(m.acceleration(walker, moved_along(m, p, by), action) == m.acceleration(
        walker,
        p,
        action,
    ));
    assert(m.predicted(walker, moved_along(m, p, by), v, action) == moved_along(m, first, by));
    lemma_moved_rounds(
        walker,
        m,
        p,
        first,
        by,
        walker.config.constraint_iterations as nat,
    );
}

} // verus!
