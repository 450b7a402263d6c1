//! Means and variances, and what is normalized by them.

use crate::arithmetic::{
    difference, differences, product, quotient, quotients, root, square, squares, sum, total, whole,
    Arithmetic, Operations,
};
use crate::fidelity::{
    difference_is_exact, finite, is_faithful, law_differences_stay_between, law_products_stay_between,
    law_quotients_stay_between, law_sums_stay_between, lemma_cancel, lemma_unit_is_positive,
    quotient_is_exact, root_is_exact, square_is_exact, squared_total, sum_is_exact, total_is_exact,
    unit, values_total,
};
use crate::lanes::{filled, is_grid, repeated};
use crate::model::Normalizer;
use crate::numbers::ONE_HUNDRED_MILLIONTH;
use crate::single::{lemma_key_orders, Single, ONE, ZERO};
use vstd::prelude::*;

verus! {

impl Operations {
    /// The mean of the numbers.
    pub open spec fn mean(self, numbers: Seq<Single>) -> Single {
        (self.quotient)((self.total)(numbers), (self.whole)(numbers.len()))
    }

    /// The numbers less their mean.
    pub open spec fn deviations(self, numbers: Seq<Single>) -> Seq<Single> {
        self.differences(numbers, repeated(self.mean(numbers), numbers.len()))
    }

    /// The variance of numbers that are a sample of many.
    pub open spec fn variance(self, numbers: Seq<Single>) -> Single {
        (self.quotient)(
            (self.total)(self.squares(self.deviations(numbers))),
            (self.whole)((numbers.len() - 1) as nat),
        )
    }

    /// What is divided by to normalize: the root of a variance, and a little more.
    pub open spec fn deviation(self, variance: Single) -> Single {
        (self.sum)((self.root)(variance), Single::of(ONE_HUNDRED_MILLIONTH))
    }

    /// The numbers less their mean, by their standard deviation.
    pub open spec fn standardized(self, numbers: Seq<Single>) -> Seq<Single> {
        self.quotients(
            self.deviations(numbers),
            repeated(self.deviation(self.variance(numbers)), numbers.len()),
        )
    }

    /// A row less the means of its columns, by their standard deviations.
    pub open spec fn normalized(
        self,
        row: Seq<Single>,
        mean: Seq<Single>,
        var: Seq<Single>,
    ) -> Seq<Single> {
        Seq::new(
            row.len(),
            |j: int|
                (self.quotient)((self.difference)(row[j], mean[j]), self.deviation(var[j])),
        )
    }

    /// The mean of a column after a batch of `batch_count` numbers with mean `batch_mean`.
    pub open spec fn mean_after(
        self,
        mean: Single,
        count: Single,
        batch_mean: Single,
        batch_count: Single,
    ) -> Single {
        let delta = (self.difference)(batch_mean, mean);
        let reciprocal = (self.quotient)(Single::of(ONE), (self.sum)(count, batch_count));
        (self.sum)(mean, (self.product)(delta, (self.product)(reciprocal, batch_count)))
    }

    /// The variance of a column after a batch of `batch_count` numbers with mean `batch_mean` and
    /// variance `batch_var`.
    pub open spec fn variance_after(
        self,
        mean: Single,
        var: Single,
        count: Single,
        batch_mean: Single,
        batch_var: Single,
        batch_count: Single,
    ) -> Single {
        let delta = (self.difference)(batch_mean, mean);
        let total_count = (self.sum)(count, batch_count);
        let apart = (self.product)(
            (self.square)(delta),
            (self.quotient)((self.product)(count, batch_count), total_count),
        );
        let both = (self.sum)((self.product)(var, count), (self.product)(batch_var, batch_count));
        (self.quotient)((self.sum)(both, apart), total_count)
    }
}

/// The mean of the numbers, and the numbers less their mean.
fn centered<A: Arithmetic>(arithmetic: &A, numbers: &Vec<Single>) -> (r: (Single, Vec<Single>))
    ensures
        r.1@.len() == numbers@.len(),
        forall|m: Operations| #[trigger]
            m.describes(*arithmetic) ==> r.0 == m.mean(numbers@) && r.1@ == m.deviations(numbers@),
{
    let mean = quotient(arithmetic, total(arithmetic, numbers), whole(arithmetic, numbers.len()));
    let deviations = differences(arithmetic, numbers, &filled(numbers.len(), mean));
    (mean, deviations)
}

/// The variance of numbers, given their differences from their mean.
fn variance_of<A: Arithmetic>(arithmetic: &A, deviations: &Vec<Single>) -> (r: Single)
    requires
        deviations@.len() > 0,
    ensures
        forall|m: Operations| #[trigger]
            m.describes(*arithmetic) ==> r == (m.quotient)(
                (m.total)(m.squares(deviations@)),
                (m.whole)((deviations@.len() - 1) as nat),
            ),
{
    let all = total(arithmetic, &squares(arithmetic, deviations));
    quotient(arithmetic, all, whole(arithmetic, deviations.len() - 1))
}

/// What is divided by to normalize.
fn deviation<A: Arithmetic>(arithmetic: &A, variance: Single) -> (r: Single)
    ensures
        forall|m: Operations| #[trigger] m.describes(*arithmetic) ==> r == m.deviation(variance),
{
    sum(arithmetic, root(arithmetic, variance), Single { bits: ONE_HUNDRED_MILLIONTH })
}

/// The numbers less their mean, by their standard deviation.
pub fn standardize<A: Arithmetic>(arithmetic: &A, numbers: &Vec<Single>) -> (r: Vec<Single>)
    requires
        numbers@.len() > 0,
    ensures
        r@.len() == numbers@.len(),
        forall|m: Operations| #[trigger] m.describes(*arithmetic) ==> r@ == m.standardized(numbers@),
{
    let (_, deviations) = centered(arithmetic, numbers);
    let spread = deviation(arithmetic, variance_of(arithmetic, &deviations));
    quotients(arithmetic, &deviations, &filled(numbers.len(), spread))
}

/// A column of a grid.
pub open spec fn grid_column(rows: Seq<Vec<Single>>, j: int) -> Seq<Single> {
    Seq::new(rows.len(), |i: int| rows[i]@[j])
}

/// A column of a grid.
fn column_of(rows: &Vec<Vec<Single>>, j: usize, width: usize) -> (r: Vec<Single>)
    requires
        is_grid(rows@, rows@.len(), width as nat),
        j < width,
    ensures
        r@ == grid_column(rows@, j as int),
{
    let mut r: Vec<Single> = Vec::new();
    let mut i: usize = 0;
    while i < rows.len()
        invariant
            is_grid(rows@, rows@.len(), width as nat),
            j < width,
            i <= rows@.len(),
            r@ =~= Seq::new(i as nat, |i: int| rows@[i]@[j as int]),
        decreases rows@.len() - i,
    {
        assert(rows@[i as int]@.len() == width);
        r.push(rows[i][j]);
        i = i + 1;
    }
    r
}

/// Row by row, the rows are normalized.
pub open spec fn are_normalized<A: Arithmetic>(
    arithmetic: A,
    normalizer: Normalizer,
    rows: Seq<Vec<Single>>,
    r: Seq<Vec<Single>>,
) -> bool {
    &&& is_grid(r, rows.len(), normalizer.mean@.len())
    &&& forall|m: Operations, i: int| #[trigger]
        m.describes(arithmetic) && 0 <= i < rows.len() ==> (#[trigger] r[i])@ == m.normalized(
            rows[i]@,
            normalizer.mean@,
            normalizer.var@,
        )
}

impl Normalizer {
    /// There are statistics for `width` columns.
    pub open spec fn has(&self, width: nat) -> bool {
        self.mean@.len() == width && self.var@.len() == width
    }

    /// One row normalized.
    fn normalize_row<A: Arithmetic>(&self, arithmetic: &A, row: &Vec<Single>) -> (r: Vec<Single>)
        requires
            self.has(row@.len()),
        ensures
            r@.len() == row@.len(),
            forall|m: Operations| #[trigger]
                m.describes(*arithmetic) ==> r@ == m.normalized(row@, self.mean@, self.var@),
    {
        let mut r: Vec<Single> = Vec::new();
        let mut j: usize = 0;
        while j < row.len()
            invariant
                self.has(row@.len()),
                j <= row@.len(),
                r@.len() == j,
                forall|m: Operations, k: int| #[trigger]
                    m.describes(*arithmetic) && 0 <= k < j ==> #[trigger] r@[k] == m.normalized(
                        row@,
                        self.mean@,
                        self.var@,
                    )[k],
            decreases row@.len() - j,
        {
            let centered = difference(arithmetic, row[j], self.mean[j]);
            r.push(quotient(arithmetic, centered, deviation(arithmetic, self.var[j])));
            j = j + 1;
        }
        assert forall|m: Operations| #[trigger] m.describes(*arithmetic) implies r@ == m.normalized(
            row@,
            self.mean@,
            self.var@,
        ) by {
            assert(r@ =~= m.normalized(row@, self.mean@, self.var@));
        }
        r
    }

    /// Normalizes rows of observations.
    pub fn normalize<A: Arithmetic>(
        &self,
        arithmetic: &A,
        rows: &Vec<Vec<Single>>,
    ) -> (r: Vec<Vec<Single>>)
        requires
            self.has(self.mean@.len()),
            is_grid(rows@, rows@.len(), self.mean@.len()),
        ensures
            are_normalized(*arithmetic, *self, rows@, r@),
    {
        let mut r: Vec<Vec<Single>> = Vec::new();
        let mut i: usize = 0;
        while i < rows.len()
            invariant
                self.has(self.mean@.len()),
                is_grid(rows@, rows@.len(), self.mean@.len()),
                i <= rows@.len(),
                is_grid(r@, i as nat, self.mean@.len()),
                forall|m: Operations, k: int| #[trigger]
                    m.describes(*arithmetic) && 0 <= k < i ==> (#[trigger] r@[k])@ == m.normalized(
                        rows@[k]@,
                        self.mean@,
                        self.var@,
                    ),
            decreases rows@.len() - i,
        {
            assert(rows@[i as int]@.len() == self.mean@.len());
            r.push(self.normalize_row(arithmetic, &rows[i]));
            i = i + 1;
        }
        r
    }

    /// The statistics after a batch of observations, column by column.
    pub open spec fn updated<A: Arithmetic>(
        self,
        arithmetic: A,
        rows: Seq<Vec<Single>>,
        after: Self,
    ) -> bool {
        &&& after.has(self.mean@.len())
        &&& forall|m: Operations| #[trigger]
            m.describes(arithmetic) ==> after.count == (m.sum)(self.count, (m.whole)(rows.len()))
        &&& forall|m: Operations, j: int| #[trigger]
            m.describes(arithmetic) && 0 <= j < self.mean@.len() ==> #[trigger] after.mean@[j]
                == m.mean_after(
                self.mean@[j],
                self.count,
                m.mean(grid_column(rows, j)),
                (m.whole)(rows.len()),
            )
        &&& forall|m: Operations, j: int| #[trigger]
            m.describes(arithmetic) && 0 <= j < self.mean@.len() ==> #[trigger] after.var@[j]
                == m.variance_after(
                self.mean@[j],
                self.var@[j],
                self.count,
                m.mean(grid_column(rows, j)),
                m.variance(grid_column(rows, j)),
                (m.whole)(rows.len()),
            )
    }

    /// The statistics of one column after a batch.
    fn update_column<A: Arithmetic>(
        &self,
        arithmetic: &A,
        column: &Vec<Single>,
        j: usize,
        batch_count: Single,
    ) -> (r: (Single, Single))
        requires
            self.has(self.mean@.len()),
            j < self.mean@.len(),
            column@.len() > 0,
        ensures
            forall|m: Operations| #[trigger]
                m.describes(*arithmetic) ==> {
                    &&& r.0 == m.mean_after(
                        self.mean@[j as int],
                        self.count,
                        m.mean(column@),
                        batch_count,
                    )
                    &&& r.1 == m.variance_after(
                        self.mean@[j as int],
                        self.var@[j as int],
                        self.count,
                        m.mean(column@),
                        m.variance(column@),
                        batch_count,
                    )
                },
    {
        let (batch_mean, deviations) = centered(arithmetic, column);
        let batch_var = variance_of(arithmetic, &deviations);
        let (mean, var, count) = (self.mean[j], self.var[j], self.count);
        let delta = difference(arithmetic, batch_mean, mean);
        let total_count = sum(arithmetic, count, batch_count);
        let reciprocal = quotient(arithmetic, Single { bits: ONE }, total_count);
        let weight = product(arithmetic, reciprocal, batch_count);
        let new_mean = sum(arithmetic, mean, product(arithmetic, delta, weight));
        let m_a = product(arithmetic, var, count);
        let m_b = product(arithmetic, batch_var, batch_count);
        let both = sum(arithmetic, m_a, m_b);
        let ratio = quotient(arithmetic, product(arithmetic, count, batch_count), total_count);
        let apart = product(arithmetic, square(arithmetic, delta), ratio);
        let m_2 = sum(arithmetic, both, apart);
        (new_mean, quotient(arithmetic, m_2, total_count))
    }

    /// Takes a batch of observations into the statistics.
    pub fn update<A: Arithmetic>(&mut self, arithmetic: &A, rows: &Vec<Vec<Single>>)
        requires
            old(self).has(old(self).mean@.len()),
            rows@.len() > 0,
            is_grid(rows@, rows@.len(), old(self).mean@.len()),
        ensures
            old(self).updated(*arithmetic, rows@, *final(self)),
    {
        let ghost before = *self;
        let batch_count = whole(arithmetic, rows.len());
        let width = self.mean.len();
        let mut mean: Vec<Single> = Vec::new();
        let mut var: Vec<Single> = Vec::new();
        let mut j: usize = 0;
        while j < width
            invariant
                *self == before,
                width == self.mean@.len(),
                self.has(width as nat),
                rows@.len() > 0,
                is_grid(rows@, rows@.len(), width as nat),
                forall|m: Operations| #[trigger]
                    m.describes(*arithmetic) ==> batch_count == (m.whole)(rows@.len()),
                j <= width,
                mean@.len() == j,
                var@.len() == j,
                forall|m: Operations, k: int| #[trigger]
                    m.describes(*arithmetic) && 0 <= k < j ==> #[trigger] mean@[k] == m.mean_after(
                        before.mean@[k],
                        before.count,
                        m.mean(grid_column(rows@, k)),
                        (m.whole)(rows@.len()),
                    ),
                forall|m: Operations, k: int| #[trigger]
                    m.describes(*arithmetic) && 0 <= k < j ==> #[trigger] var@[k]
                        == m.variance_after(
                        before.mean@[k],
                        before.var@[k],
                        before.count,
                        m.mean(grid_column(rows@, k)),
                        m.variance(grid_column(rows@, k)),
                        (m.whole)(rows@.len()),
                    ),
            decreases width - j,
        {
            let column = column_of(rows, j, width);
            let (new_mean, new_var) = self.update_column(arithmetic, &column, j, batch_count);
            mean.push(new_mean);
            var.push(new_var);
            j = j + 1;
        }
        self.count = sum(arithmetic, self.count, batch_count);
        self.mean = mean;
        self.var = var;
    }
}

/// A normalized row taken back: each number by the standard deviation of its column, and the mean added.
pub open spec fn recovered(
    m: Operations,
    normalized: Seq<Single>,
    mean: Seq<Single>,
    var: Seq<Single>,
) -> Seq<Single> {
    Seq::new(
        normalized.len(),
        |j: int| (m.sum)((m.product)(normalized[j], m.deviation(var[j])), mean[j]),
    )
}

/// The number, less the mean and then by the standard deviation, is finite throughout.
pub open spec fn normalizes_finitely(m: Operations, number: Single, mean: Single, var: Single) -> bool {
    &&& finite(number)
    &&& finite(mean)
    &&& finite((m.difference)(number, mean))
    &&& finite((m.root)(var))
    &&& finite(m.deviation(var))
    &&& finite((m.quotient)((m.difference)(number, mean), m.deviation(var)))
}

/// Neither the number less the mean nor that by the standard deviation is rounded.
pub open spec fn normalizes_exactly(m: Operations, number: Single, mean: Single, var: Single) -> bool {
    let away = (m.difference)(number, mean);
    let by = m.deviation(var);
    &&& away.value() == number.value() - mean.value()
    &&& (m.quotient)(away, by).value() * by.value() == away.value() * unit()
}

/// Where nothing is rounded, a normalized row times the standard deviations, and the means added, is the
/// row again.
pub proof fn law_normalized_rows_can_be_recovered<A: Arithmetic>(
    arithmetic: A,
    m: Operations,
    normalizer: Normalizer,
    rows: Seq<Vec<Single>>,
    r: Seq<Vec<Single>>,
    i: int,
    j: int,
)
    requires
        m.describes(arithmetic),
        is_faithful(m),
        is_grid(rows, rows.len(), normalizer.mean@.len()),
        are_normalized(arithmetic, normalizer, rows, r),
        0 <= i < rows.len(),
        0 <= j < normalizer.mean@.len(),
        normalizes_finitely(m, rows[i]@[j], normalizer.mean@[j], normalizer.var@[j]),
        normalizes_exactly(m, rows[i]@[j], normalizer.mean@[j], normalizer.var@[j]),
    ensures
        recovered(m, r[i]@, normalizer.mean@, normalizer.var@)[j].value() == rows[i]@[j].value(),
{
    let (number, mean, var) = (rows[i]@[j], normalizer.mean@[j], normalizer.var@[j]);
    let away = (m.difference)(number, mean);
    let by = m.deviation(var);
    assert(rows[i]@.len() == normalizer.mean@.len());
    assert(r[i]@[j] == (m.quotient)(away, by));
    law_products_stay_between(m, r[i]@[j], by, away, away);
    law_sums_stay_between(m, (m.product)(r[i]@[j], by), mean, number, number);
}

/// Normalizing keeps the order of a column, and turns its mean to zero.
pub proof fn law_normalizing_keeps_the_order<A: Arithmetic>(
    arithmetic: A,
    m: Operations,
    normalizer: Normalizer,
    rows: Seq<Vec<Single>>,
    r: Seq<Vec<Single>>,
    i: int,
    k: int,
    j: int,
)
    requires
        m.describes(arithmetic),
        is_faithful(m),
        is_grid(rows, rows.len(), normalizer.mean@.len()),
        are_normalized(arithmetic, normalizer, rows, r),
        0 <= i < rows.len(),
        0 <= k < rows.len(),
        0 <= j < normalizer.mean@.len(),
        normalizes_finitely(m, rows[i]@[j], normalizer.mean@[j], normalizer.var@[j]),
        normalizes_finitely(m, rows[k]@[j], normalizer.mean@[j], normalizer.var@[j]),
        (m.root)(normalizer.var@[j]).value() >= 0,
    ensures
        rows[i]@[j].value() <= rows[k]@[j].value() ==> r[i]@[j].value() <= r[k]@[j].value(),
        rows[i]@[j].value() == normalizer.mean@[j].value() ==> r[i]@[j].value() == 0,
{
    let (mean, var) = (normalizer.mean@[j], normalizer.var@[j]);
    assert(rows[i]@.len() == normalizer.mean@.len());
    assert(rows[k]@.len() == normalizer.mean@.len());
    assert(r[i]@[j] == (m.quotient)((m.difference)(rows[i]@[j], mean), m.deviation(var)));
    assert(r[k]@[j] == (m.quotient)((m.difference)(rows[k]@[j], mean), m.deviation(var)));
    lemma_normalizing_keeps_the_order(m, mean, var, rows[i]@[j], rows[k]@[j]);
}

/// What is less before a mean is taken away and the rest divided by a deviation is not more after it, and
/// the mean turns to zero.
proof fn lemma_normalizing_keeps_the_order(
    m: Operations,
    mean: Single,
    var: Single,
    number: Single,
    other: Single,
)
    requires
        is_faithful(m),
        normalizes_finitely(m, number, mean, var),
        normalizes_finitely(m, other, mean, var),
        (m.root)(var).value() >= 0,
    ensures
        ({
            let by = m.deviation(var);
            let normalized = (m.quotient)((m.difference)(number, mean), by);
            let other_normalized = (m.quotient)((m.difference)(other, mean), by);
            &&& number.value() <= other.value() ==> normalized.value() <= other_normalized.value()
            &&& number.value() == mean.value() ==> normalized.value() == 0
        }),
{
    let (zero, little) = (Single::of(ZERO), Single::of(ONE_HUNDRED_MILLIONTH));
    let (away, other_away) = ((m.difference)(number, mean), (m.difference)(other, mean));
    let by = m.deviation(var);
    assert(zero.value() == 0);
    lemma_key_orders(zero, little);
    assert((m.sum)(little, zero).value() <= by.value());
    let d = by.value();
    assert(d * d > 0) by (nonlinear_arith)
        requires
            d > 0,
    ;
    if number.value() <= other.value() {
        assert(away.value() <= other_away.value());
        assert(away.value() * d <= other_away.value() * d) by (nonlinear_arith)
            requires
                away.value() <= other_away.value(),
                d > 0,
        ;
    }
    if number.value() == mean.value() {
        law_differences_stay_between(m, number, mean, zero, zero);
        assert(0 * d == 0 && 0 * unit() == 0) by (nonlinear_arith);
        law_quotients_stay_between(m, away, by, zero, zero);
    }
}

/// Standardizing keeps the order of the numbers.
pub proof fn law_standardizing_keeps_the_order(m: Operations, numbers: Seq<Single>, i: int, k: int)
    requires
        is_faithful(m),
        0 <= i < numbers.len(),
        0 <= k < numbers.len(),
        normalizes_finitely(m, numbers[i], m.mean(numbers), m.variance(numbers)),
        normalizes_finitely(m, numbers[k], m.mean(numbers), m.variance(numbers)),
        (m.root)(m.variance(numbers)).value() >= 0,
        numbers[i].value() <= numbers[k].value(),
    ensures
        m.standardized(numbers)[i].value() <= m.standardized(numbers)[k].value(),
{
    lemma_normalizing_keeps_the_order(
        m,
        m.mean(numbers),
        m.variance(numbers),
        numbers[i],
        numbers[k],
    );
}

/// The mean of the numbers is not rounded.
pub open spec fn averages_exactly(m: Operations, numbers: Seq<Single>) -> bool {
    m.mean(numbers).value() * (m.whole)(numbers.len()).value() == values_total(numbers) * unit()
}

/// Where nothing is rounded, standardized numbers balance: their total is zero.
pub proof fn law_standardized_numbers_balance(m: Operations, numbers: Seq<Single>)
    requires
        (m.whole)(numbers.len()).value() == numbers.len() * unit(),
        averages_exactly(m, numbers),
        m.deviation(m.variance(numbers)).value() != 0,
        forall|i: int|
            0 <= i < numbers.len() ==> normalizes_exactly(
                m,
                #[trigger] numbers[i],
                m.mean(numbers),
                m.variance(numbers),
            ),
    ensures
        values_total(m.standardized(numbers)) == 0,
{
    let by = m.deviation(m.variance(numbers)).value();
    let (mean, n, u) = (m.mean(numbers).value(), numbers.len() as int, unit());
    let r = m.standardized(numbers);
    lemma_unit_is_positive();
    assert forall|i: int| 0 <= i < numbers.len() implies (#[trigger] r[i]).value() * by == (
    numbers[i].value() - mean) * u by {
        assert(normalizes_exactly(m, numbers[i], m.mean(numbers), m.variance(numbers)));
    }
    lemma_balances(numbers, r, mean, by);
    let (all, total) = (values_total(r), values_total(numbers));
    assert(total - n * mean == 0) by (nonlinear_arith)
        requires
            u > 0,
            mean * (n * u) == total * u,
    {
        assert(mean * (n * u) == (n * mean) * u);
    }
    assert(all == 0) by (nonlinear_arith)
        requires
            by != 0,
            all * by == 0 * u,
    ;
}

/// Numbers less a mean, by a deviation, make what all numbers make less as often the mean, by the
/// deviation.
proof fn lemma_balances(numbers: Seq<Single>, r: Seq<Single>, mean: int, by: int)
    requires
        numbers.len() == r.len(),
        forall|i: int|
            0 <= i < numbers.len() ==> (#[trigger] r[i]).value() * by == (numbers[i].value() - mean)
                * unit(),
    ensures
        values_total(r) * by == (values_total(numbers) - numbers.len() * mean) * unit(),
    decreases numbers.len(),
{
    if numbers.len() == 0 {
        assert(0 * by == 0 && (0 - 0 * mean) * unit() == 0) by (nonlinear_arith);
    } else {
        let last = numbers.len() - 1;
        lemma_balances(numbers.drop_last(), r.drop_last(), mean, by);
        let (a, b) = (values_total(r.drop_last()), r[last].value());
        let (c, d, u) = (values_total(numbers.drop_last()), numbers[last].value(), unit());
        assert((a + b) * by == a * by + b * by) by (nonlinear_arith);
        assert((last + 1) * mean == last * mean + mean) by (nonlinear_arith);
        let (e, f) = (c - last * mean, d - mean);
        assert((e + f) * u == e * u + f * u) by (nonlinear_arith);
    }
}

/// What is divided by to normalize is the root of the variance and a hundred millionth, for every variance:
/// where nothing is rounded, a number that lies `k` times that from its mean is normalized to `k`.
pub proof fn law_distances_count_in_deviations<A: Arithmetic>(
    arithmetic: A,
    m: Operations,
    normalizer: Normalizer,
    rows: Seq<Vec<Single>>,
    r: Seq<Vec<Single>>,
    i: int,
    j: int,
    spread: int,
    k: int,
)
    requires
        m.describes(arithmetic),
        is_grid(rows, rows.len(), normalizer.mean@.len()),
        are_normalized(arithmetic, normalizer, rows, r),
        0 <= i < rows.len(),
        0 <= j < normalizer.mean@.len(),
        ({
            let (number, mean, var) = (rows[i]@[j], normalizer.mean@[j], normalizer.var@[j]);
            let little = Single::of(ONE_HUNDRED_MILLIONTH);
            let by = (m.sum)((m.root)(var), little);
            &&& spread >= 0
            &&& spread * spread == var.value() * unit()
            &&& (number.value() - mean.value()) * unit() == k * (spread + little.value())
            &&& root_is_exact(m, var)
            &&& sum_is_exact(m, (m.root)(var), little)
            &&& difference_is_exact(m, number, mean)
            &&& quotient_is_exact(m, (m.difference)(number, mean), by)
        }),
    ensures
        r[i]@[j].value() == k,
{
    let (number, mean, var) = (rows[i]@[j], normalizer.mean@[j], normalizer.var@[j]);
    let little = Single::of(ONE_HUNDRED_MILLIONTH);
    assert(rows[i]@.len() == normalizer.mean@.len());
    lemma_one_root((m.root)(var).value(), spread);
    lemma_key_orders(Single::of(ZERO), little);
    assert(Single::of(ZERO).value() == 0);
    lemma_cancel(r[i]@[j].value(), k, spread + little.value());
}

/// Numbers that are not negative and have the same square are the same.
proof fn lemma_one_root(a: int, b: int)
    requires
        a >= 0,
        b >= 0,
        a * a == b * b,
    ensures
        a == b,
{
    assert(a == b) by (nonlinear_arith)
        requires
            a >= 0,
            b >= 0,
            a * a == b * b,
    ;
}

/// The squares of the distances of the numbers from `mean` together.
pub open spec fn scatter(numbers: Seq<Single>, mean: int) -> int
    decreases numbers.len(),
{
    if numbers.len() == 0 {
        0
    } else {
        scatter(numbers.drop_last(), mean) + (numbers.last().value() - mean) * (
        numbers.last().value() - mean)
    }
}

/// No step that leads to the mean and the variance of the numbers is rounded.
pub open spec fn measures_exactly(m: Operations, numbers: Seq<Single>) -> bool {
    let mean = (m.quotient)((m.total)(numbers), (m.whole)(numbers.len()));
    let away = Seq::new(numbers.len(), |i: int| (m.difference)(numbers[i], mean));
    let squares = Seq::new(numbers.len(), |i: int| (m.square)(away[i]));
    &&& (m.whole)(numbers.len()).value() == numbers.len() * unit()
    &&& (m.whole)((numbers.len() - 1) as nat).value() == (numbers.len() - 1) * unit()
    &&& total_is_exact(m, numbers)
    &&& quotient_is_exact(m, (m.total)(numbers), (m.whole)(numbers.len()))
    &&& forall|i: int| 0 <= i < numbers.len() ==> difference_is_exact(m, #[trigger] numbers[i], mean)
    &&& forall|i: int| 0 <= i < away.len() ==> square_is_exact(m, #[trigger] away[i])
    &&& total_is_exact(m, squares)
    &&& quotient_is_exact(m, (m.total)(squares), (m.whole)((numbers.len() - 1) as nat))
}

/// Where nothing is rounded, the mean times the count is the numbers together, and the variance times one
/// less is the squares of their distances from the mean together.
pub proof fn law_mean_and_variance(m: Operations, numbers: Seq<Single>)
    requires
        numbers.len() > 0,
        measures_exactly(m, numbers),
    ensures
        m.mean(numbers).value() * numbers.len() == values_total(numbers),
        m.variance(numbers).value() * (numbers.len() - 1) * unit() == scatter(
            numbers,
            m.mean(numbers).value(),
        ),
{
    let mean = m.mean(numbers);
    let (n, u) = (numbers.len() as int, unit());
    lemma_unit_is_positive();
    let away = m.deviations(numbers);
    let squares = m.squares(away);
    assert(away =~= Seq::new(numbers.len(), |i: int| (m.difference)(numbers[i], mean)));
    assert(squares =~= Seq::new(numbers.len(), |i: int| (m.square)(away[i])));
    assert((mean.value() * n) * u == mean.value() * (n * u)) by (nonlinear_arith);
    lemma_cancel(mean.value() * n, values_total(numbers), u);
    assert forall|i: int| 0 <= i < numbers.len() implies (#[trigger] squares[i]).value() * u == (
    numbers[i].value() - mean.value()) * (numbers[i].value() - mean.value()) by {
        assert(difference_is_exact(m, numbers[i], mean));
        assert(square_is_exact(m, away[i]));
    }
    lemma_scatter(numbers, squares, mean.value());
    let (v, t) = (m.variance(numbers).value(), values_total(squares));
    assert((v * (n - 1)) * u == v * ((n - 1) * u)) by (nonlinear_arith);
}

proof fn lemma_scatter(numbers: Seq<Single>, squares: Seq<Single>, mean: int)
    requires
        numbers.len() == squares.len(),
        forall|i: int|
            0 <= i < numbers.len() ==> (#[trigger] squares[i]).value() * unit() == (
            numbers[i].value() - mean) * (numbers[i].value() - mean),
    ensures
        values_total(squares) * unit() == scatter(numbers, mean),
    decreases numbers.len(),
{
    if numbers.len() == 0 {
        assert(0 * unit() == 0) by (nonlinear_arith);
    } else {
        let last = numbers.len() - 1;
        lemma_scatter(numbers.drop_last(), squares.drop_last(), mean);
        let (a, b, u) = (values_total(squares.drop_last()), squares[last].value(), unit());
        assert((a + b) * u == a * u + b * u) by (nonlinear_arith);
    }
}

/// Where nothing is rounded, and a hundred millionth adds nothing to the root of the variance, the squares
/// of standardized numbers together are one less than their count: they have a standard deviation of one,
/// whatever that of the numbers was.
pub proof fn law_standardized_numbers_have_a_deviation_of_one(m: Operations, numbers: Seq<Single>)
    requires
        numbers.len() > 0,
        measures_exactly(m, numbers),
        ({
            let (mean, var) = (m.mean(numbers), m.variance(numbers));
            let by = (m.sum)((m.root)(var), Single::of(ONE_HUNDRED_MILLIONTH));
            &&& var.value() > 0
            &&& root_is_exact(m, var)
            &&& by.value() == (m.root)(var).value()
            &&& forall|i: int|
                0 <= i < numbers.len() ==> quotient_is_exact(
                    m,
                    (m.difference)(#[trigger] numbers[i], mean),
                    by,
                )
        }),
    ensures
        squared_total(m.standardized(numbers)) == (numbers.len() - 1) * (unit() * unit()),
{
    let (mean, var) = (m.mean(numbers), m.variance(numbers));
    let root = (m.root)(var);
    let r = m.standardized(numbers);
    let (n, u, s) = (numbers.len() as int, unit(), root.value());
    lemma_unit_is_positive();
    law_mean_and_variance(m, numbers);
    assert forall|i: int| 0 <= i < numbers.len() implies (#[trigger] r[i]).value() * s == (
    numbers[i].value() - mean.value()) * u by {
        assert(difference_is_exact(m, numbers[i], mean));
        assert(quotient_is_exact(
            m,
            (m.difference)(numbers[i], mean),
            (m.sum)(root, Single::of(ONE_HUNDRED_MILLIONTH)),
        ));
    }
    lemma_squares_scale(numbers, r, mean.value(), s);
    let (all, v) = (squared_total(r), var.value());
    // all * s * s == scatter * u * u, s * s == v * u and scatter == v * (n - 1) * u.
    assert(v * u > 0) by (nonlinear_arith)
        requires
            v > 0,
            u > 0,
    ;
    assert((v * (n - 1) * u) * (u * u) == ((n - 1) * (u * u)) * (v * u)) by {
        let k = n - 1;
        let w = u * u;
        assert((v * k * u) * w == (k * w) * (v * u)) by (nonlinear_arith);
    }
    lemma_cancel(all, (n - 1) * (u * u), v * u);
}

proof fn lemma_squares_scale(numbers: Seq<Single>, r: Seq<Single>, mean: int, by: int)
    requires
        numbers.len() == r.len(),
        forall|i: int|
            0 <= i < numbers.len() ==> (#[trigger] r[i]).value() * by == (numbers[i].value() - mean)
                * unit(),
    ensures
        squared_total(r) * (by * by) == scatter(numbers, mean) * (unit() * unit()),
    decreases numbers.len(),
{
    if numbers.len() == 0 {
        assert(0 * (by * by) == 0 && 0 * (unit() * unit()) == 0) by (nonlinear_arith);
    } else {
        let last = numbers.len() - 1;
        lemma_squares_scale(numbers.drop_last(), r.drop_last(), mean, by);
        let (a, x) = (squared_total(r.drop_last()), r[last].value());
        let (c, d) = (scatter(numbers.drop_last(), mean), numbers[last].value() - mean);
        let u = unit();
        assert((x * x) * (by * by) == (x * by) * (x * by)) by (nonlinear_arith);
        assert((d * u) * (d * u) == (d * d) * (u * u)) by (nonlinear_arith);
        let (p, q) = (by * by, u * u);
        let (e, f) = (x * x, d * d);
        assert((a + e) * p == a * p + e * p) by (nonlinear_arith);
        assert((c + f) * q == c * q + f * q) by (nonlinear_arith);
    }
}

} // verus!
