//! What the statistics of observations say after several batches.
//!
//! Where nothing is rounded, the statistics after a batch are those of what came before and of the batch
//! together, each weighted by its count. So it does not matter in which order batches come.

use crate::arithmetic::{Arithmetic, Operations};
use crate::fidelity::{
    lemma_unit_is_positive, product_is_exact, quotient_is_exact, sum_is_exact, unit, values_total,
};
use crate::model::Normalizer;
use crate::single::{Single, ONE};
use crate::statistics::{
    averages_exactly, grid_column, law_mean_and_variance, measures_exactly, scatter,
};
use vstd::prelude::*;

verus! {

/// `after` is the mean of two lots of numbers, given their means and counts.
pub open spec fn is_pooled_mean(
    mean: int,
    count: int,
    batch_mean: int,
    batch_count: int,
    after: int,
) -> bool {
    after * (count + batch_count) == mean * count + batch_mean * batch_count
}

/// `after` is the variance of two lots of numbers, given their means, variances and counts: the mean of
/// the variances, and what the distance of the means adds. All are values, in which a product of four
/// numbers counts as one of three does by the unit.
pub open spec fn is_pooled_variance(
    mean: int,
    var: int,
    count: int,
    batch_mean: int,
    batch_var: int,
    batch_count: int,
    after: int,
) -> bool {
    let total = count + batch_count;
    let delta = batch_mean - mean;
    after * total * total * unit() == (var * count + batch_var * batch_count) * total * unit() + (
    delta * delta) * (count * batch_count)
}

/// The statistics of a column after a batch are those of both lots together, without rounding.
pub open spec fn pools(
    m: Operations,
    mean: Single,
    var: Single,
    count: Single,
    batch_mean: Single,
    batch_var: Single,
    batch_count: Single,
) -> bool {
    &&& (m.sum)(count, batch_count).value() == count.value() + batch_count.value()
    &&& (m.sum)(count, batch_count).value() != 0
    &&& is_pooled_mean(
        mean.value(),
        count.value(),
        batch_mean.value(),
        batch_count.value(),
        m.mean_after(mean, count, batch_mean, batch_count).value(),
    )
    &&& is_pooled_variance(
        mean.value(),
        var.value(),
        count.value(),
        batch_mean.value(),
        batch_var.value(),
        batch_count.value(),
        m.variance_after(mean, var, count, batch_mean, batch_var, batch_count).value(),
    )
}

/// The statistics of a column after a batch of observations are those of both lots together, without
/// rounding.
pub open spec fn pools_batch(m: Operations, before: Normalizer, rows: Seq<Vec<Single>>, j: int) -> bool {
    pools(
        m,
        before.mean@[j],
        before.var@[j],
        before.count,
        m.mean(grid_column(rows, j)),
        m.variance(grid_column(rows, j)),
        (m.whole)(rows.len()),
    )
}

/// No step that leads to the statistics after a batch is rounded.
pub open spec fn updates_exactly(
    m: Operations,
    mean: Single,
    var: Single,
    count: Single,
    batch_mean: Single,
    batch_var: Single,
    batch_count: Single,
) -> bool {
    let one = Single::of(ONE);
    let delta = (m.difference)(batch_mean, mean);
    let total = (m.sum)(count, batch_count);
    let reciprocal = (m.quotient)(one, total);
    let weight = (m.product)(reciprocal, batch_count);
    let counts = (m.product)(count, batch_count);
    let ratio = (m.quotient)(counts, total);
    let apart = (m.product)((m.square)(delta), ratio);
    let (old, new) = ((m.product)(var, count), (m.product)(batch_var, batch_count));
    let both = (m.sum)(old, new);
    &&& total.value() != 0
    &&& delta.value() == batch_mean.value() - mean.value()
    &&& sum_is_exact(m, count, batch_count)
    &&& quotient_is_exact(m, one, total)
    &&& product_is_exact(m, reciprocal, batch_count)
    &&& product_is_exact(m, delta, weight)
    &&& sum_is_exact(m, mean, (m.product)(delta, weight))
    &&& (m.square)(delta).value() * unit() == delta.value() * delta.value()
    &&& product_is_exact(m, count, batch_count)
    &&& quotient_is_exact(m, counts, total)
    &&& product_is_exact(m, (m.square)(delta), ratio)
    &&& product_is_exact(m, var, count)
    &&& product_is_exact(m, batch_var, batch_count)
    &&& sum_is_exact(m, old, new)
    &&& sum_is_exact(m, both, apart)
    &&& quotient_is_exact(m, (m.sum)(both, apart), total)
}

/// Where no step is rounded, the statistics after a batch are those of both lots together.
pub proof fn law_unrounded_updates_pool(
    m: Operations,
    mean: Single,
    var: Single,
    count: Single,
    batch_mean: Single,
    batch_var: Single,
    batch_count: Single,
)
    requires
        updates_exactly(m, mean, var, count, batch_mean, batch_var, batch_count),
    ensures
        pools(m, mean, var, count, batch_mean, batch_var, batch_count),
{
    let one = Single::of(ONE);
    let delta = (m.difference)(batch_mean, mean);
    let total = (m.sum)(count, batch_count);
    let reciprocal = (m.quotient)(one, total);
    let weight = (m.product)(reciprocal, batch_count);
    let step = (m.product)(delta, weight);
    lemma_unit_is_positive();
    lemma_weighted_step(
        unit(),
        total.value(),
        batch_count.value(),
        delta.value(),
        reciprocal.value(),
        weight.value(),
        step.value(),
    );
    lemma_step_pools(
        mean.value(),
        count.value(),
        batch_mean.value(),
        batch_count.value(),
        step.value(),
    );
    let counts = (m.product)(count, batch_count);
    let ratio = (m.quotient)(counts, total);
    let apart = (m.product)((m.square)(delta), ratio);
    let (old, new) = ((m.product)(var, count), (m.product)(batch_var, batch_count));
    let all = (m.sum)((m.sum)(old, new), apart);
    lemma_spread_pools(
        unit(),
        total.value(),
        count.value() * batch_count.value(),
        delta.value(),
        (m.square)(delta).value(),
        counts.value(),
        ratio.value(),
        apart.value(),
        var.value() * count.value(),
        batch_var.value() * batch_count.value(),
        old.value(),
        new.value(),
        (m.quotient)(all, total).value(),
    );
}

/// The step of a mean times the total count is the distance times the count of the batch.
proof fn lemma_weighted_step(
    u: int,
    total: int,
    n: int,
    delta: int,
    reciprocal: int,
    weight: int,
    step: int,
)
    requires
        u > 0,
        reciprocal * total == u * u,
        weight * u == reciprocal * n,
        step * u == delta * weight,
    ensures
        step * total == delta * n,
{
    let (moved, share, due) = (step * total, weight * total, delta * n);
    assert(share * u == (weight * u) * total) by (nonlinear_arith)
        requires
            share == weight * total,
    ;
    assert((reciprocal * n) * total == n * (reciprocal * total)) by (nonlinear_arith);
    assert(n * (u * u) == (n * u) * u) by (nonlinear_arith);
    lemma_quotients_agree(share, n * u, u);
    assert(moved * u == (step * u) * total) by (nonlinear_arith)
        requires
            moved == step * total,
    ;
    assert((delta * weight) * total == delta * share) by (nonlinear_arith)
        requires
            share == weight * total,
    ;
    assert(delta * (n * u) == due * u) by (nonlinear_arith)
        requires
            due == delta * n,
    ;
    lemma_quotients_agree(moved, due, u);
}

/// A mean with such a step is the mean of both lots.
proof fn lemma_step_pools(mean: int, count: int, batch_mean: int, batch_count: int, step: int)
    requires
        step * (count + batch_count) == (batch_mean - mean) * batch_count,
    ensures
        is_pooled_mean(mean, count, batch_mean, batch_count, mean + step),
{
    assert((mean + step) * (count + batch_count) == mean * count + batch_mean * batch_count)
        by (nonlinear_arith)
        requires
            step * (count + batch_count) == (batch_mean - mean) * batch_count,
    ;
}

/// The variance of both lots, from the steps that lead to it.
proof fn lemma_spread_pools(
    u: int,
    total: int,
    n: int,
    delta: int,
    square: int,
    counts: int,
    ratio: int,
    apart: int,
    a: int,
    b: int,
    old: int,
    new: int,
    after: int,
)
    requires
        square * u == delta * delta,
        counts * u == n,
        ratio * total == counts * u,
        apart * u == square * ratio,
        old * u == a,
        new * u == b,
        after * total == (old + new + apart) * u,
    ensures
        after * total * total * u == (a + b) * total * u + (delta * delta) * n,
{
    assert((old + new + apart) * u == a + b + square * ratio) by (nonlinear_arith)
        requires
            apart * u == square * ratio,
            old * u == a,
            new * u == b,
    ;
    assert((square * ratio) * total * u == (delta * delta) * n) by (nonlinear_arith)
        requires
            square * u == delta * delta,
            ratio * total == n,
    {
        assert((square * ratio) * total * u == (square * u) * (ratio * total));
    }
    let spread = square * ratio;
    assert((a + b + spread) * total * u == (a + b) * total * u + spread * total * u)
        by (nonlinear_arith);
}

/// What a lot of numbers adds to the total of all squares.
pub open spec fn squares_total(mean: int, var: int, count: int) -> int {
    var * count * unit() + mean * mean * count
}

/// The squares of both lots are those of the one and those of the other.
proof fn lemma_squares_add(
    mean: int,
    var: int,
    count: int,
    batch_mean: int,
    batch_var: int,
    batch_count: int,
    new_mean: int,
    new_var: int,
)
    requires
        count + batch_count != 0,
        is_pooled_mean(mean, count, batch_mean, batch_count, new_mean),
        is_pooled_variance(mean, var, count, batch_mean, batch_var, batch_count, new_var),
    ensures
        squares_total(new_mean, new_var, count + batch_count) == squares_total(mean, var, count)
            + squares_total(batch_mean, batch_var, batch_count),
{
    let (t, u) = (count + batch_count, unit());
    let (a, b) = (mean * count, batch_mean * batch_count);
    let both = var * count + batch_var * batch_count;
    assert(new_mean * t == a + b);
    lemma_distance(mean, count, batch_mean, batch_count);
    let left = new_var * t * u + new_mean * new_mean * t;
    let right = both * u + (mean * mean * count + batch_mean * batch_mean * batch_count);
    assert(left * t == right * t) by {
        assert(left * t == new_var * t * t * u + (new_mean * t) * (new_mean * t))
            by (nonlinear_arith)
            requires
                left == new_var * t * u + new_mean * new_mean * t,
        ;
        assert(right * t == both * t * u + (mean * mean * count + batch_mean * batch_mean
            * batch_count) * t) by (nonlinear_arith)
            requires
                right == both * u + (mean * mean * count + batch_mean * batch_mean * batch_count),
        ;
    }
    lemma_quotients_agree(left, right, t);
    assert(both * u == var * count * u + batch_var * batch_count * u) by (nonlinear_arith)
        requires
            both == var * count + batch_var * batch_count,
    ;
}

/// The squares of two means, each times its count, and the square of the whole of both.
proof fn lemma_distance(x: int, n: int, y: int, k: int)
    ensures
        (x * n + y * k) * (x * n + y * k) + ((y - x) * (y - x)) * (n * k) == (x * x * n + y * y * k)
            * (n + k),
{
    let (p, q) = (x * n, y * k);
    let (xx, xy, yy) = (x * x, x * y, y * y);
    assert((p + q) * (p + q) == p * p + 2 * (p * q) + q * q) by (nonlinear_arith);
    assert(p * p == xx * (n * n)) by (nonlinear_arith)
        requires
            p == x * n,
            xx == x * x,
    ;
    assert(p * q == xy * (n * k)) by (nonlinear_arith)
        requires
            p == x * n,
            q == y * k,
            xy == x * y,
    ;
    assert(q * q == yy * (k * k)) by (nonlinear_arith)
        requires
            q == y * k,
            yy == y * y,
    ;
    assert((y - x) * (y - x) == yy - 2 * xy + xx) by (nonlinear_arith)
        requires
            xx == x * x,
            xy == x * y,
            yy == y * y,
    ;
    let nk = n * k;
    assert((yy - 2 * xy + xx) * nk == yy * nk - 2 * (xy * nk) + xx * nk) by (nonlinear_arith);
    let (a, b) = (xx * n, yy * k);
    assert((a + b) * (n + k) == a * n + a * k + b * n + b * k) by (nonlinear_arith);
    assert(a * n == xx * (n * n) && a * k == xx * (n * k)) by (nonlinear_arith)
        requires
            a == xx * n,
    ;
    assert(b * n == yy * (n * k) && b * k == yy * (k * k)) by (nonlinear_arith)
        requires
            b == yy * k,
    ;
}

/// What makes the same when multiplied by the same is the same.
proof fn lemma_quotients_agree(a: int, b: int, total: int)
    requires
        total != 0,
        a * total == b * total,
    ensures
        a == b,
{
    assert(a == b) by (nonlinear_arith)
        requires
            total != 0,
            a * total == b * total,
    ;
}

/// The order in which two batches come does not matter: where nothing is rounded, the count, the means and
/// the variances are the same after both.
pub proof fn law_the_order_of_batches_does_not_matter<A: Arithmetic>(
    arithmetic: A,
    m: Operations,
    before: Normalizer,
    one: Seq<Vec<Single>>,
    other: Seq<Vec<Single>>,
    after_one: Normalizer,
    after_one_other: Normalizer,
    after_other: Normalizer,
    after_other_one: Normalizer,
    j: int,
)
    requires
        m.describes(arithmetic),
        before.has(before.mean@.len()),
        before.updated(arithmetic, one, after_one),
        after_one.updated(arithmetic, other, after_one_other),
        before.updated(arithmetic, other, after_other),
        after_other.updated(arithmetic, one, after_other_one),
        0 <= j < before.mean@.len(),
        pools_batch(m, before, one, j),
        pools_batch(m, after_one, other, j),
        pools_batch(m, before, other, j),
        pools_batch(m, after_other, one, j),
    ensures
        after_one_other.count.value() == after_other_one.count.value(),
        after_one_other.mean@[j].value() == after_other_one.mean@[j].value(),
        after_one_other.var@[j].value() == after_other_one.var@[j].value(),
{
    let (m1, m2) = (m.mean(grid_column(one, j)), m.mean(grid_column(other, j)));
    let (v1, v2) = (m.variance(grid_column(one, j)), m.variance(grid_column(other, j)));
    let (n1, n2) = ((m.whole)(one.len()), (m.whole)(other.len()));
    let total = after_one_other.count.value();
    assert(after_one.mean@.len() == before.mean@.len());
    assert(after_other.mean@.len() == before.mean@.len());
    lemma_squares_add(
        before.mean@[j].value(),
        before.var@[j].value(),
        before.count.value(),
        m1.value(),
        v1.value(),
        n1.value(),
        after_one.mean@[j].value(),
        after_one.var@[j].value(),
    );
    lemma_squares_add(
        after_one.mean@[j].value(),
        after_one.var@[j].value(),
        after_one.count.value(),
        m2.value(),
        v2.value(),
        n2.value(),
        after_one_other.mean@[j].value(),
        after_one_other.var@[j].value(),
    );
    lemma_squares_add(
        before.mean@[j].value(),
        before.var@[j].value(),
        before.count.value(),
        m2.value(),
        v2.value(),
        n2.value(),
        after_other.mean@[j].value(),
        after_other.var@[j].value(),
    );
    lemma_squares_add(
        after_other.mean@[j].value(),
        after_other.var@[j].value(),
        after_other.count.value(),
        m1.value(),
        v1.value(),
        n1.value(),
        after_other_one.mean@[j].value(),
        after_other_one.var@[j].value(),
    );
    let (a, b) = (after_one_other.mean@[j].value(), after_other_one.mean@[j].value());
    lemma_quotients_agree(a, b, total);
    let (c, d) = (after_one_other.var@[j].value(), after_other_one.var@[j].value());
    lemma_unit_is_positive();
    assert(c * total * unit() == d * total * unit());
    lemma_quotients_agree(c * total, d * total, unit());
    lemma_quotients_agree(c, d, total);
}

/// Two lists together make what each of them makes.
proof fn lemma_values_total_adds(a: Seq<Single>, b: Seq<Single>)
    ensures
        values_total(a + b) == values_total(a) + values_total(b),
    decreases b.len(),
{
    if b.len() == 0 {
        assert(a + b =~= a);
    } else {
        lemma_values_total_adds(a, b.drop_last());
        assert((a + b).drop_last() =~= a + b.drop_last());
        assert((a + b).last() == b.last());
    }
}

/// Two batches are one: where nothing is rounded, the count and the means after both are those after all
/// their observations at once.
pub proof fn law_two_batches_are_one<A: Arithmetic>(
    arithmetic: A,
    m: Operations,
    before: Normalizer,
    one: Seq<Vec<Single>>,
    other: Seq<Vec<Single>>,
    after_one: Normalizer,
    after_one_other: Normalizer,
    after_all: Normalizer,
    j: int,
)
    requires
        m.describes(arithmetic),
        before.has(before.mean@.len()),
        before.updated(arithmetic, one, after_one),
        after_one.updated(arithmetic, other, after_one_other),
        before.updated(arithmetic, one + other, after_all),
        0 <= j < before.mean@.len(),
        pools_batch(m, before, one, j),
        pools_batch(m, after_one, other, j),
        pools_batch(m, before, one + other, j),
        (m.whole)((one + other).len()).value() == (m.whole)(one.len()).value() + (m.whole)(
            other.len(),
        ).value(),
        averages_exactly(m, grid_column(one, j)),
        averages_exactly(m, grid_column(other, j)),
        averages_exactly(m, grid_column(one + other, j)),
    ensures
        after_one_other.count.value() == after_all.count.value(),
        after_one_other.mean@[j].value() == after_all.mean@[j].value(),
{
    assert(grid_column(one + other, j) =~= grid_column(one, j) + grid_column(other, j));
    lemma_values_total_adds(grid_column(one, j), grid_column(other, j));
    let (a, b) = (values_total(grid_column(one, j)), values_total(grid_column(other, j)));
    assert((a + b) * unit() == a * unit() + b * unit()) by (nonlinear_arith);
    assert(after_one.mean@.len() == before.mean@.len());
    lemma_quotients_agree(
        after_one_other.mean@[j].value(),
        after_all.mean@[j].value(),
        after_all.count.value(),
    );
}

/// Where nothing is rounded, a batch adds as many as it has observations to the count, the mean of a column
/// is that of all its numbers, each weighing the same, and the variance is that of both lots, of which that
/// of the batch is by one less than its count.
pub proof fn law_a_batch_is_taken_in<A: Arithmetic>(
    arithmetic: A,
    m: Operations,
    before: Normalizer,
    rows: Seq<Vec<Single>>,
    after: Normalizer,
    j: int,
)
    requires
        m.describes(arithmetic),
        before.has(before.mean@.len()),
        before.updated(arithmetic, rows, after),
        rows.len() > 0,
        0 <= j < before.mean@.len(),
        measures_exactly(m, grid_column(rows, j)),
        updates_exactly(
            m,
            before.mean@[j],
            before.var@[j],
            before.count,
            m.mean(grid_column(rows, j)),
            m.variance(grid_column(rows, j)),
            (m.whole)(rows.len()),
        ),
    ensures
        ({
            let (numbers, n, u) = (grid_column(rows, j), rows.len() as int, unit());
            let (mean, var, count) = (
                before.mean@[j].value(),
                before.var@[j].value(),
                before.count.value(),
            );
            let batch_mean = m.mean(numbers).value();
            let batch_var = m.variance(numbers).value();
            let total = count + n * u;
            let delta = batch_mean - mean;
            &&& after.count.value() == total
            &&& after.mean@[j].value() * total == mean * count + values_total(numbers) * u
            &&& batch_mean * n == values_total(numbers)
            &&& batch_var * (n - 1) * u == scatter(numbers, batch_mean)
            &&& after.var@[j].value() * total * total * u == (var * count + batch_var * (n * u))
                * total * u + (delta * delta) * (count * (n * u))
        }),
{
    let numbers = grid_column(rows, j);
    law_mean_and_variance(m, numbers);
    law_unrounded_updates_pool(
        m,
        before.mean@[j],
        before.var@[j],
        before.count,
        m.mean(numbers),
        m.variance(numbers),
        (m.whole)(rows.len()),
    );
    let (a, n, u) = (m.mean(numbers).value(), rows.len() as int, unit());
    assert(a * (n * u) == (a * n) * u) by (nonlinear_arith);
}

} // verus!
