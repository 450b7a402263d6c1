//! The distribution that actions are drawn from.

use crate::arithmetic::{
    difference, exponential, product, quotient, square, sum, total, whole, Arithmetic, Operations,
};
use crate::fidelity::{
    finite, is_faithful, law_differences_stay_between, lemma_cancel, lemma_unit_is_positive,
    lemma_whole_numbers, product_is_exact, quotient_is_exact, sum_is_exact, total_is_exact, unit,
    values_total,
};
use crate::lanes::is_grid;
use crate::math::{is_odd, lemma_differences_turn, lemma_halves};
use crate::numbers::{LOG_TWO_PI, MINUS_0_5, PLUS_0_5, PLUS_2};
use crate::single::{
    law_negation_turns_the_value, lemma_key_orders, Single, FRACTIONS, ONE, ZERO,
};
use vstd::arithmetic::power2::*;
use vstd::prelude::*;

verus! {

/// Normal distributions, one to a number of an action, with a row of means for each environment and the
/// same spread for all of them.
pub struct DiagonalGaussian {
    pub mean: Vec<Vec<Single>>,
    /// The logarithms of the standard deviations.
    pub log_std: Vec<Single>,
}

impl Operations {
    /// A number drawn from a normal distribution, given one drawn from that with mean zero and standard
    /// deviation one.
    pub open spec fn sampled(self, mean: Single, log_std: Single, noise: Single) -> Single {
        (self.sum)(mean, (self.product)(noise, (self.exponential)(log_std)))
    }

    /// A row drawn from normal distributions.
    pub open spec fn sampled_row(
        self,
        mean: Seq<Single>,
        log_std: Seq<Single>,
        noise: Seq<Single>,
    ) -> Seq<Single> {
        Seq::new(mean.len(), |j: int| self.sampled(mean[j], log_std[j], noise[j]))
    }

    /// The logarithm of the density of a normal distribution.
    pub open spec fn log_density(self, mean: Single, log_std: Single, number: Single) -> Single {
        let twice = (self.product)(log_std, Single::of(PLUS_2));
        let miss = (self.square)((self.difference)(number, mean));
        let exponent = (self.sum)((self.quotient)(miss, (self.exponential)(twice)), twice);
        (self.product)((self.sum)(exponent, Single::of(LOG_TWO_PI)), Single::of(MINUS_0_5))
    }

    /// The logarithms of the densities at the numbers of a row.
    pub open spec fn log_densities(
        self,
        mean: Seq<Single>,
        log_std: Seq<Single>,
        row: Seq<Single>,
    ) -> Seq<Single> {
        Seq::new(mean.len(), |j: int| self.log_density(mean[j], log_std[j], row[j]))
    }

    /// The entropy of a normal distribution.
    pub open spec fn entropy_of(self, log_std: Single) -> Single {
        let twice = (self.product)(log_std, Single::of(PLUS_2));
        let shifted = (self.sum)((self.sum)(twice, Single::of(LOG_TWO_PI)), Single::of(ONE));
        (self.product)(shifted, Single::of(PLUS_0_5))
    }

    /// The entropies of normal distributions.
    pub open spec fn entropies(self, log_std: Seq<Single>) -> Seq<Single> {
        Seq::new(log_std.len(), |j: int| self.entropy_of(log_std[j]))
    }
}

impl DiagonalGaussian {
    /// Every row of means has a number for each spread.
    pub open spec fn wf(&self) -> bool {
        is_grid(self.mean@, self.mean@.len(), self.log_std@.len())
    }

    /// The distribution with these means and logarithms of the standard deviations.
    pub fn new(mean: Vec<Vec<Single>>, log_std: Vec<Single>) -> (r: Self)
        requires
            is_grid(mean@, mean@.len(), log_std@.len()),
        ensures
            r.wf(),
            r.mean == mean,
            r.log_std == log_std,
    {
        DiagonalGaussian { mean, log_std }
    }

    /// The action that goes with the noise, row by row.
    pub open spec fn are_samples<A: Arithmetic>(
        &self,
        arithmetic: A,
        noise: Seq<Vec<Single>>,
        r: Seq<Vec<Single>>,
    ) -> bool {
        &&& is_grid(r, self.mean@.len(), self.log_std@.len())
        &&& forall|m: Operations, b: int| #[trigger]
            m.describes(arithmetic) && 0 <= b < r.len() ==> (#[trigger] r[b])@ == m.sampled_row(
                self.mean@[b]@,
                self.log_std@,
                noise[b]@,
            )
    }

    /// The logarithms of the probabilities of the actions, each the sum of those of its numbers.
    pub open spec fn are_log_probabilities<A: Arithmetic>(
        &self,
        arithmetic: A,
        action: Seq<Vec<Single>>,
        r: Seq<Single>,
    ) -> bool {
        &&& r.len() == self.mean@.len()
        &&& forall|m: Operations, b: int| #[trigger]
            m.describes(arithmetic) && 0 <= b < r.len() ==> #[trigger] r[b] == (m.total)(
                m.log_densities(self.mean@[b]@, self.log_std@, action[b]@),
            )
    }

    /// One row of samples.
    fn sample_row<A: Arithmetic>(
        &self,
        arithmetic: &A,
        mean: &Vec<Single>,
        noise: &Vec<Single>,
    ) -> (r: Vec<Single>)
        requires
            mean@.len() == self.log_std@.len(),
            noise@.len() == self.log_std@.len(),
        ensures
            r@.len() == mean@.len(),
            forall|m: Operations| #[trigger]
                m.describes(*arithmetic) ==> r@ == m.sampled_row(mean@, self.log_std@, noise@),
    {
        let mut r: Vec<Single> = Vec::new();
        let mut j: usize = 0;
        while j < mean.len()
            invariant
                mean@.len() == self.log_std@.len(),
                noise@.len() == self.log_std@.len(),
                j <= mean@.len(),
                r@.len() == j,
                forall|m: Operations, k: int| #[trigger]
                    m.describes(*arithmetic) && 0 <= k < j ==> #[trigger] r@[k] == m.sampled(
                        mean@[k],
                        self.log_std@[k],
                        noise@[k],
                    ),
            decreases mean@.len() - j,
        {
            let spread = exponential(arithmetic, self.log_std[j]);
            r.push(sum(arithmetic, mean[j], product(arithmetic, noise[j], spread)));
            j = j + 1;
        }
        assert forall|m: Operations| #[trigger] m.describes(*arithmetic) implies r@ == m.sampled_row(
            mean@,
            self.log_std@,
            noise@,
        ) by {
            assert(r@ =~= m.sampled_row(mean@, self.log_std@, noise@));
        }
        r
    }

    /// The action that goes with the noise.
    pub fn sample<A: Arithmetic>(
        &self,
        arithmetic: &A,
        noise: &Vec<Vec<Single>>,
    ) -> (r: Vec<Vec<Single>>)
        requires
            self.wf(),
            is_grid(noise@, self.mean@.len(), self.log_std@.len()),
        ensures
            self.are_samples(*arithmetic, noise@, r@),
    {
        let mut r: Vec<Vec<Single>> = Vec::new();
        let mut b: usize = 0;
        while b < self.mean.len()
            invariant
                self.wf(),
                is_grid(noise@, self.mean@.len(), self.log_std@.len()),
                b <= self.mean@.len(),
                is_grid(r@, b as nat, self.log_std@.len()),
                forall|m: Operations, i: int| #[trigger]
                    m.describes(*arithmetic) && 0 <= i < b ==> (#[trigger] r@[i])@ == m.sampled_row(
                        self.mean@[i]@,
                        self.log_std@,
                        noise@[i]@,
                    ),
            decreases self.mean@.len() - b,
        {
            assert(self.mean@[b as int]@.len() == self.log_std@.len());
            assert(noise@[b as int]@.len() == self.log_std@.len());
            r.push(self.sample_row(arithmetic, &self.mean[b], &noise[b]));
            b = b + 1;
        }
        r
    }

    /// The logarithms of the densities at the numbers of a row.
    fn log_density_row<A: Arithmetic>(
        &self,
        arithmetic: &A,
        mean: &Vec<Single>,
        row: &Vec<Single>,
    ) -> (r: Vec<Single>)
        requires
            mean@.len() == self.log_std@.len(),
            row@.len() == self.log_std@.len(),
        ensures
            forall|m: Operations| #[trigger]
                m.describes(*arithmetic) ==> r@ == m.log_densities(mean@, self.log_std@, row@),
    {
        let mut r: Vec<Single> = Vec::new();
        let mut j: usize = 0;
        while j < mean.len()
            invariant
                mean@.len() == self.log_std@.len(),
                row@.len() == self.log_std@.len(),
                j <= mean@.len(),
                r@.len() == j,
                forall|m: Operations, k: int| #[trigger]
                    m.describes(*arithmetic) && 0 <= k < j ==> #[trigger] r@[k] == m.log_density(
                        mean@[k],
                        self.log_std@[k],
                        row@[k],
                    ),
            decreases mean@.len() - j,
        {
            let twice = product(arithmetic, self.log_std[j], Single { bits: PLUS_2 });
            let variance = exponential(arithmetic, twice);
            let miss = square(arithmetic, difference(arithmetic, row[j], mean[j]));
            let exponent = sum(arithmetic, quotient(arithmetic, miss, variance), twice);
            let shifted = sum(arithmetic, exponent, Single { bits: LOG_TWO_PI });
            r.push(product(arithmetic, shifted, Single { bits: MINUS_0_5 }));
            j = j + 1;
        }
        assert forall|m: Operations| #[trigger] m.describes(*arithmetic) implies r@
            == m.log_densities(mean@, self.log_std@, row@) by {
            assert(r@ =~= m.log_densities(mean@, self.log_std@, row@));
        }
        r
    }

    /// The logarithms of the probabilities of the actions.
    pub fn log_probability<A: Arithmetic>(
        &self,
        arithmetic: &A,
        action: &Vec<Vec<Single>>,
    ) -> (r: Vec<Single>)
        requires
            self.wf(),
            is_grid(action@, self.mean@.len(), self.log_std@.len()),
        ensures
            self.are_log_probabilities(*arithmetic, action@, r@),
    {
        let mut r: Vec<Single> = Vec::new();
        let mut b: usize = 0;
        while b < self.mean.len()
            invariant
                self.wf(),
                is_grid(action@, self.mean@.len(), self.log_std@.len()),
                b <= self.mean@.len(),
                r@.len() == b,
                forall|m: Operations, i: int| #[trigger]
                    m.describes(*arithmetic) && 0 <= i < b ==> #[trigger] r@[i] == (m.total)(
                        m.log_densities(self.mean@[i]@, self.log_std@, action@[i]@),
                    ),
            decreases self.mean@.len() - b,
        {
            assert(self.mean@[b as int]@.len() == self.log_std@.len());
            assert(action@[b as int]@.len() == self.log_std@.len());
            let densities = self.log_density_row(arithmetic, &self.mean[b], &action[b]);
            r.push(total(arithmetic, &densities));
            b = b + 1;
        }
        r
    }

    /// The number is the entropy of the distributions, on average over the numbers of an action.
    pub open spec fn is_entropy<A: Arithmetic>(&self, arithmetic: A, r: Single) -> bool {
        forall|m: Operations| #[trigger]
            m.describes(arithmetic) ==> r == (m.quotient)(
                (m.total)(m.entropies(self.log_std@)),
                (m.whole)(self.log_std@.len()),
            )
    }

    /// The entropy of the distributions, on average over the numbers of an action.
    pub fn entropy<A: Arithmetic>(&self, arithmetic: &A) -> (r: Single)
        ensures
            forall|m: Operations| #[trigger]
                m.describes(*arithmetic) ==> r == (m.quotient)(
                    (m.total)(m.entropies(self.log_std@)),
                    (m.whole)(self.log_std@.len()),
                ),
            self.is_entropy(*arithmetic, r),
    {
        let mut all: Vec<Single> = Vec::new();
        let mut j: usize = 0;
        while j < self.log_std.len()
            invariant
                j <= self.log_std@.len(),
                all@.len() == j,
                forall|m: Operations, k: int| #[trigger]
                    m.describes(*arithmetic) && 0 <= k < j ==> #[trigger] all@[k] == m.entropy_of(
                        self.log_std@[k],
                    ),
            decreases self.log_std@.len() - j,
        {
            let twice = product(arithmetic, self.log_std[j], Single { bits: PLUS_2 });
            let shifted = sum(arithmetic, twice, Single { bits: LOG_TWO_PI });
            let more = sum(arithmetic, shifted, Single { bits: ONE });
            all.push(product(arithmetic, more, Single { bits: PLUS_0_5 }));
            j = j + 1;
        }
        assert forall|m: Operations| #[trigger] m.describes(*arithmetic) implies all@ == m.entropies(
            self.log_std@,
        ) by {
            assert(all@ =~= m.entropies(self.log_std@));
        }
        quotient(arithmetic, total(arithmetic, &all), whole(arithmetic, self.log_std.len()))
    }
}

/// The density at a number comes of finite numbers, and the variance is positive.
pub open spec fn has_density(m: Operations, mean: Single, log_std: Single, number: Single) -> bool {
    let twice = (m.product)(log_std, Single::of(PLUS_2));
    let away = (m.difference)(number, mean);
    let variance = (m.exponential)(twice);
    let weighed = (m.quotient)((m.square)(away), variance);
    let exponent = (m.sum)(weighed, twice);
    &&& finite(mean)
    &&& finite(number)
    &&& finite(twice)
    &&& finite(away)
    &&& finite((m.square)(away))
    &&& finite(variance)
    &&& variance.value() > 0
    &&& finite(weighed)
    &&& finite(exponent)
    &&& finite((m.sum)(exponent, Single::of(LOG_TWO_PI)))
    &&& finite(m.log_density(mean, log_std, number))
}

/// A number is likelier than another with the same spread whose distance from its mean is not less.
pub proof fn law_nearer_numbers_are_likelier(
    m: Operations,
    log_std: Single,
    mean: Single,
    number: Single,
    other_mean: Single,
    other_number: Single,
)
    requires
        is_faithful(m),
        has_density(m, mean, log_std, number),
        has_density(m, other_mean, log_std, other_number),
        ({
            let away = (m.difference)(number, mean).value();
            let other_away = (m.difference)(other_number, other_mean).value();
            away * away <= other_away * other_away
        }),
    ensures
        m.log_density(other_mean, log_std, other_number).value() <= m.log_density(
            mean,
            log_std,
            number,
        ).value(),
{
    let (half, constant) = (Single::of(MINUS_0_5), Single::of(LOG_TWO_PI));
    let twice = (m.product)(log_std, Single::of(PLUS_2));
    let variance = (m.exponential)(twice);
    let (away, other_away) = (
        (m.difference)(number, mean),
        (m.difference)(other_number, other_mean),
    );
    assert((m.product)(away, away).value() <= (m.product)(other_away, other_away).value());
    let (miss, other_miss) = ((m.square)(away), (m.square)(other_away));
    let v = variance.value();
    assert(v * v > 0) by (nonlinear_arith)
        requires
            v > 0,
    ;
    assert(miss.value() * v <= other_miss.value() * v) by (nonlinear_arith)
        requires
            v > 0,
            miss.value() <= other_miss.value(),
    ;
    let (weighed, other_weighed) = (
        (m.quotient)(miss, variance),
        (m.quotient)(other_miss, variance),
    );
    assert(weighed.value() <= other_weighed.value());
    let (exponent, other_exponent) = ((m.sum)(weighed, twice), (m.sum)(other_weighed, twice));
    assert(exponent.value() <= other_exponent.value());
    let (shifted, other_shifted) = (
        (m.sum)(exponent, constant),
        (m.sum)(other_exponent, constant),
    );
    assert(shifted.value() <= other_shifted.value());
    lemma_key_orders(half, Single::of(ZERO));
    assert(Single::of(ZERO).value() == 0);
    assert(other_shifted.value() * half.value() <= shifted.value() * half.value())
        by (nonlinear_arith)
        requires
            half.value() < 0,
            shifted.value() <= other_shifted.value(),
    ;
}

/// The densities of an action come of finite numbers.
pub open spec fn has_densities(
    m: Operations,
    mean: Seq<Single>,
    log_std: Seq<Single>,
    row: Seq<Single>,
) -> bool {
    &&& mean.len() == log_std.len() == row.len()
    &&& forall|j: int|
        0 <= j < mean.len() ==> has_density(m, #[trigger] mean[j], log_std[j], row[j])
    &&& finite((m.total)(m.log_densities(mean, log_std, row)))
}

/// None of the numbers of the one action is farther from its mean than that of the other.
pub open spec fn is_nearer(
    m: Operations,
    mean: Seq<Single>,
    row: Seq<Single>,
    other_mean: Seq<Single>,
    other_row: Seq<Single>,
) -> bool {
    forall|j: int|
        0 <= j < mean.len() ==> {
            let away = (m.difference)(row[j], #[trigger] mean[j]).value();
            let other_away = (m.difference)(other_row[j], other_mean[j]).value();
            away * away <= other_away * other_away
        }
}

/// An action is likelier than another with the same spreads none of whose numbers is nearer to its mean.
pub proof fn law_nearer_actions_are_likelier<A: Arithmetic>(
    arithmetic: A,
    m: Operations,
    one: DiagonalGaussian,
    action: Seq<Vec<Single>>,
    r: Seq<Single>,
    b: int,
    other: DiagonalGaussian,
    other_action: Seq<Vec<Single>>,
    other_r: Seq<Single>,
    c: int,
)
    requires
        m.describes(arithmetic),
        is_faithful(m),
        one.are_log_probabilities(arithmetic, action, r),
        other.are_log_probabilities(arithmetic, other_action, other_r),
        one.log_std@ == other.log_std@,
        0 <= b < r.len(),
        0 <= c < other_r.len(),
        has_densities(m, one.mean@[b]@, one.log_std@, action[b]@),
        has_densities(m, other.mean@[c]@, other.log_std@, other_action[c]@),
        is_nearer(m, one.mean@[b]@, action[b]@, other.mean@[c]@, other_action[c]@),
    ensures
        other_r[c].value() <= r[b].value(),
{
    let (mean, row) = (one.mean@[b]@, action[b]@);
    let (other_mean, other_row) = (other.mean@[c]@, other_action[c]@);
    let densities = m.log_densities(mean, one.log_std@, row);
    let other_densities = m.log_densities(other_mean, one.log_std@, other_row);
    assert forall|j: int| 0 <= j < mean.len() implies {
        &&& finite(#[trigger] densities[j])
        &&& finite(other_densities[j])
        &&& other_densities[j].value() <= densities[j].value()
    } by {
        assert(has_density(m, mean[j], one.log_std@[j], row[j]));
        assert(has_density(m, other_mean[j], one.log_std@[j], other_row[j]));
        law_nearer_numbers_are_likelier(
            m,
            one.log_std@[j],
            mean[j],
            row[j],
            other_mean[j],
            other_row[j],
        );
    }
    assert(r[b] == (m.total)(densities));
    assert(other_r[c] == (m.total)(other_densities));
}

/// No action is likelier than the means themselves.
pub proof fn law_the_means_are_likeliest<A: Arithmetic>(
    arithmetic: A,
    m: Operations,
    distribution: DiagonalGaussian,
    action: Seq<Vec<Single>>,
    r: Seq<Single>,
    greatest: Seq<Single>,
    b: int,
)
    requires
        m.describes(arithmetic),
        is_faithful(m),
        distribution.are_log_probabilities(arithmetic, action, r),
        distribution.are_log_probabilities(arithmetic, distribution.mean@, greatest),
        0 <= b < r.len(),
        has_densities(m, distribution.mean@[b]@, distribution.log_std@, action[b]@),
        has_densities(m, distribution.mean@[b]@, distribution.log_std@, distribution.mean@[b]@),
    ensures
        r[b].value() <= greatest[b].value(),
{
    let mean = distribution.mean@[b]@;
    let zero = Single::of(ZERO);
    assert(zero.value() == 0);
    assert forall|j: int| 0 <= j < mean.len() implies {
        let away = (m.difference)(mean[j], #[trigger] mean[j]).value();
        let other_away = (m.difference)(action[b]@[j], mean[j]).value();
        away * away <= other_away * other_away
    } by {
        assert(has_density(m, mean[j], distribution.log_std@[j], mean[j]));
        law_differences_stay_between(m, mean[j], mean[j], zero, zero);
        let other_away = (m.difference)(action[b]@[j], mean[j]).value();
        assert(0 * 0 <= other_away * other_away) by (nonlinear_arith);
    }
    law_nearer_actions_are_likelier(
        arithmetic,
        m,
        distribution,
        distribution.mean@,
        greatest,
        b,
        distribution,
        action,
        r,
        b,
    );
}

/// Actions that mirror each other at the means are as likely as each other.
pub proof fn law_mirrored_actions_are_as_likely<A: Arithmetic>(
    arithmetic: A,
    m: Operations,
    distribution: DiagonalGaussian,
    action: Seq<Vec<Single>>,
    r: Seq<Single>,
    mirrored: Seq<Vec<Single>>,
    mirrored_r: Seq<Single>,
    b: int,
)
    requires
        m.describes(arithmetic),
        is_faithful(m),
        is_odd(m),
        distribution.are_log_probabilities(arithmetic, action, r),
        distribution.are_log_probabilities(arithmetic, mirrored, mirrored_r),
        0 <= b < r.len(),
        has_densities(m, distribution.mean@[b]@, distribution.log_std@, action[b]@),
        has_densities(m, distribution.mean@[b]@, distribution.log_std@, mirrored[b]@),
        forall|j: int|
            0 <= j < distribution.mean@[b]@.len() ==> mirrored[b]@[j].value()
                - distribution.mean@[b]@[j].value() == (#[trigger] distribution.mean@[b]@[j]).value()
                - action[b]@[j].value(),
    ensures
        mirrored_r[b].value() == r[b].value(),
{
    let (mean, row, other) = (distribution.mean@[b]@, action[b]@, mirrored[b]@);
    assert forall|j: int| 0 <= j < mean.len() implies {
        let away = (m.difference)(row[j], #[trigger] mean[j]).value();
        let other_away = (m.difference)(other[j], mean[j]).value();
        away * away == other_away * other_away
    } by {
        assert(has_density(m, mean[j], distribution.log_std@[j], row[j]));
        assert(has_density(m, mean[j], distribution.log_std@[j], other[j]));
        lemma_differences_turn(m, row[j], mean[j]);
        let away = (m.difference)(row[j], mean[j]).value();
        let other_away = (m.difference)(other[j], mean[j]).value();
        assert(other_away == (m.difference)(mean[j], row[j]).value());
        assert(away * away == other_away * other_away) by (nonlinear_arith)
            requires
                other_away == -away,
        ;
    }
    law_nearer_actions_are_likelier(
        arithmetic,
        m,
        distribution,
        action,
        r,
        b,
        distribution,
        mirrored,
        mirrored_r,
        b,
    );
    law_nearer_actions_are_likelier(
        arithmetic,
        m,
        distribution,
        mirrored,
        mirrored_r,
        b,
        distribution,
        action,
        r,
        b,
    );
}

/// The noise times the spread is finite, and not rounded where it is added to the mean.
pub open spec fn adds_noise_exactly(
    m: Operations,
    mean: Single,
    log_std: Single,
    noise: Single,
) -> bool {
    let spread = (m.product)(noise, (m.exponential)(log_std));
    &&& finite(spread)
    &&& m.sampled(mean, log_std, noise).value() == mean.value() + spread.value()
}

/// How likely a sample is depends on its noise and the spreads alone, not on the means.
pub proof fn law_samples_are_as_likely_as_their_noise<A: Arithmetic>(
    arithmetic: A,
    m: Operations,
    one: DiagonalGaussian,
    noise: Seq<Vec<Single>>,
    action: Seq<Vec<Single>>,
    r: Seq<Single>,
    b: int,
    other: DiagonalGaussian,
    other_noise: Seq<Vec<Single>>,
    other_action: Seq<Vec<Single>>,
    other_r: Seq<Single>,
    c: int,
)
    requires
        m.describes(arithmetic),
        is_faithful(m),
        one.are_samples(arithmetic, noise, action),
        other.are_samples(arithmetic, other_noise, other_action),
        one.are_log_probabilities(arithmetic, action, r),
        other.are_log_probabilities(arithmetic, other_action, other_r),
        one.log_std@ == other.log_std@,
        0 <= b < r.len(),
        0 <= c < other_r.len(),
        noise[b]@ == other_noise[c]@,
        has_densities(m, one.mean@[b]@, one.log_std@, action[b]@),
        has_densities(m, other.mean@[c]@, other.log_std@, other_action[c]@),
        forall|j: int|
            0 <= j < one.log_std@.len() ==> adds_noise_exactly(
                m,
                one.mean@[b]@[j],
                #[trigger] one.log_std@[j],
                noise[b]@[j],
            ) && adds_noise_exactly(
                m,
                other.mean@[c]@[j],
                one.log_std@[j],
                noise[b]@[j],
            ),
    ensures
        other_r[c].value() == r[b].value(),
{
    let (mean, other_mean) = (one.mean@[b]@, other.mean@[c]@);
    let (row, other_row) = (action[b]@, other_action[c]@);
    assert(row == m.sampled_row(mean, one.log_std@, noise[b]@));
    assert(other_row == m.sampled_row(other_mean, one.log_std@, noise[b]@));
    assert forall|j: int| 0 <= j < mean.len() implies (m.difference)(
        row[j],
        #[trigger] mean[j],
    ).value() == (m.difference)(other_row[j], other_mean[j]).value() by {
        let log_std = one.log_std@[j];
        let spread = (m.product)(noise[b]@[j], (m.exponential)(log_std));
        assert(has_density(m, mean[j], log_std, row[j]));
        assert(has_density(m, other_mean[j], log_std, other_row[j]));
        law_differences_stay_between(m, row[j], mean[j], spread, spread);
        law_differences_stay_between(m, other_row[j], other_mean[j], spread, spread);
    }
    law_nearer_actions_are_likelier(
        arithmetic,
        m,
        one,
        action,
        r,
        b,
        other,
        other_action,
        other_r,
        c,
    );
    law_nearer_actions_are_likelier(
        arithmetic,
        m,
        other,
        other_action,
        other_r,
        c,
        one,
        action,
        r,
        b,
    );
}

/// No step that leads to the density at the number that goes with the noise is rounded, and twice the
/// exponent squares the exponential.
pub open spec fn weighs_exactly(m: Operations, mean: Single, log_std: Single, noise: Single) -> bool {
    let sigma = (m.exponential)(log_std);
    let spread = (m.product)(noise, sigma);
    let number = m.sampled(mean, log_std, noise);
    let away = (m.difference)(number, mean);
    let miss = (m.square)(away);
    let twice = (m.product)(log_std, Single::of(PLUS_2));
    let variance = (m.exponential)(twice);
    let weighed = (m.quotient)(miss, variance);
    let exponent = (m.sum)(weighed, twice);
    let constant = Single::of(LOG_TWO_PI);
    &&& sigma.value() != 0
    &&& variance.value() * unit() == sigma.value() * sigma.value()
    &&& product_is_exact(m, noise, sigma)
    &&& sum_is_exact(m, mean, spread)
    &&& away.value() == number.value() - mean.value()
    &&& miss.value() * unit() == away.value() * away.value()
    &&& product_is_exact(m, log_std, Single::of(PLUS_2))
    &&& quotient_is_exact(m, miss, variance)
    &&& sum_is_exact(m, weighed, twice)
    &&& sum_is_exact(m, exponent, constant)
    &&& product_is_exact(m, (m.sum)(exponent, constant), Single::of(MINUS_0_5))
}

/// What the noise and the spread of a number make: the square of the noise, twice the logarithm of the
/// standard deviation and that of two pi. All are values, so what is not squared is multiplied by the unit.
pub open spec fn surprise(log_std: Single, noise: Single) -> int {
    noise.value() * noise.value() + (2 * log_std.value() + Single::of(LOG_TWO_PI).value()) * unit()
}

/// Where nothing is rounded, the logarithm of the density at a sample is, but for the factor of minus one
/// half, the square of its noise, twice the logarithm of the standard deviation and that of two pi.
pub proof fn law_the_density_of_a_sample(m: Operations, mean: Single, log_std: Single, noise: Single)
    requires
        weighs_exactly(m, mean, log_std, noise),
    ensures
        -2 * m.log_density(mean, log_std, m.sampled(mean, log_std, noise)).value() * unit()
            == surprise(log_std, noise),
{
    let sigma = (m.exponential)(log_std);
    let spread = (m.product)(noise, sigma);
    let number = m.sampled(mean, log_std, noise);
    let away = (m.difference)(number, mean);
    let miss = (m.square)(away);
    let twice = (m.product)(log_std, Single::of(PLUS_2));
    let variance = (m.exponential)(twice);
    let weighed = (m.quotient)(miss, variance);
    let all = (m.sum)((m.sum)(weighed, twice), Single::of(LOG_TWO_PI));
    let (half, density) = (Single::of(MINUS_0_5), (m.product)(all, Single::of(MINUS_0_5)));
    let (u, w, n) = (unit(), weighed.value(), noise.value());
    lemma_unit_is_positive();
    lemma_halves();
    law_negation_turns_the_value(Single::of(PLUS_0_5));
    assert(Single::of(PLUS_0_5).negated() == half);
    assert(Single::of(PLUS_2).value() == 2 * u) by {
        lemma_pow2_unfold(127);
        assert(Single::of(PLUS_2).value() == FRACTIONS * pow2(127));
        assert(unit() == FRACTIONS * pow2(126));
        assert(pow2(127) == 2 * pow2(126));
        assert(FRACTIONS * (2 * pow2(126)) == 2 * (FRACTIONS * pow2(126)));
    }
    lemma_weighed_miss(
        u,
        n,
        sigma.value(),
        spread.value(),
        miss.value(),
        variance.value(),
        w,
    );
    let (t, l) = (twice.value(), log_std.value());
    assert(t == 2 * l) by (nonlinear_arith)
        requires
            u > 0,
            t * u == l * (2 * u),
    ;
    let (a, d, h) = (all.value(), density.value(), half.value());
    assert(-2 * d == a) by (nonlinear_arith)
        requires
            u > 0,
            u == -2 * h,
            d * u == a * h,
    {
        assert(-2 * (d * u) == a * (-2 * h));
        assert((-2 * d) * u == a * u);
    }
    let c = Single::of(LOG_TWO_PI).value();
    assert((w + 2 * l + c) * u == w * u + (2 * l + c) * u) by (nonlinear_arith);
}

/// The square of the distance by the variance is the square of the noise.
proof fn lemma_weighed_miss(
    u: int,
    noise: int,
    sigma: int,
    spread: int,
    miss: int,
    variance: int,
    weighed: int,
)
    requires
        u > 0,
        sigma != 0,
        spread * u == noise * sigma,
        miss * u == spread * spread,
        variance * u == sigma * sigma,
        weighed * variance == miss * u,
    ensures
        weighed * u == noise * noise,
{
    let (s, v) = (sigma * sigma, weighed * u);
    assert(v * s == (noise * noise) * s) by {
        assert(weighed * s == (weighed * variance) * u) by (nonlinear_arith)
            requires
                variance * u == s,
        ;
        assert(v * s == (weighed * s) * u) by (nonlinear_arith)
            requires
                v == weighed * u,
        ;
        assert(((spread * spread) * u) * u == (spread * u) * (spread * u)) by (nonlinear_arith);
        assert((noise * sigma) * (noise * sigma) == (noise * noise) * s) by (nonlinear_arith)
            requires
                s == sigma * sigma,
        ;
    }
    assert(s > 0) by (nonlinear_arith)
        requires
            sigma != 0,
            s == sigma * sigma,
    ;
    let square = noise * noise;
    assert(v == square) by (nonlinear_arith)
        requires
            s > 0,
            v * s == square * s,
    ;
}

/// No step that leads to the entropy of a normal distribution is rounded.
pub open spec fn disperses_exactly(m: Operations, log_std: Single) -> bool {
    let twice = (m.product)(log_std, Single::of(PLUS_2));
    let raised = (m.sum)(twice, Single::of(LOG_TWO_PI));
    let shifted = (m.sum)(raised, Single::of(ONE));
    &&& product_is_exact(m, log_std, Single::of(PLUS_2))
    &&& sum_is_exact(m, twice, Single::of(LOG_TWO_PI))
    &&& sum_is_exact(m, raised, Single::of(ONE))
    &&& product_is_exact(m, shifted, Single::of(PLUS_0_5))
}

/// Where nothing is rounded, twice the entropy of a normal distribution is twice the logarithm of its
/// standard deviation, that of two pi, and one.
pub proof fn law_the_entropy_of_a_spread(m: Operations, log_std: Single)
    requires
        disperses_exactly(m, log_std),
    ensures
        2 * m.entropy_of(log_std).value() == 2 * log_std.value() + Single::of(LOG_TWO_PI).value()
            + unit(),
{
    lemma_whole_numbers();
    let u = unit();
    let twice = (m.product)(log_std, Single::of(PLUS_2));
    let (t, l) = (twice.value(), log_std.value());
    assert(t * u == (2 * l) * u) by (nonlinear_arith)
        requires
            t * u == l * (2 * u),
    ;
    lemma_cancel(t, 2 * l, u);
    let shifted = (m.sum)((m.sum)(twice, Single::of(LOG_TWO_PI)), Single::of(ONE));
    let (e, s, h) = (
        (m.product)(shifted, Single::of(PLUS_0_5)).value(),
        shifted.value(),
        Single::of(PLUS_0_5).value(),
    );
    assert((2 * e) * u == s * u) by (nonlinear_arith)
        requires
            e * u == s * h,
            2 * h == u,
    ;
    lemma_cancel(2 * e, s, u);
}

/// The logarithms of the standard deviations, and what goes with each, together.
pub open spec fn dispersion(log_std: Seq<Single>) -> int
    decreases log_std.len(),
{
    if log_std.len() == 0 {
        0
    } else {
        dispersion(log_std.drop_last()) + 2 * log_std.last().value() + Single::of(
            LOG_TWO_PI,
        ).value() + unit()
    }
}

/// Where nothing is rounded, the entropy that is reported of a distribution is the mean of those of its
/// spreads: times twice their number, it is what the spreads make together.
pub proof fn law_entropies_are_averaged<A: Arithmetic>(
    arithmetic: A,
    m: Operations,
    distribution: DiagonalGaussian,
    log_std: Seq<Single>,
    entropy: Single,
)
    requires
        m.describes(arithmetic),
        log_std == distribution.log_std@,
        distribution.is_entropy(arithmetic, entropy),
        forall|j: int| 0 <= j < log_std.len() ==> disperses_exactly(m, #[trigger] log_std[j]),
        total_is_exact(m, m.entropies(log_std)),
        (m.whole)(log_std.len()).value() == log_std.len() * unit(),
        quotient_is_exact(m, (m.total)(m.entropies(log_std)), (m.whole)(log_std.len())),
    ensures
        2 * entropy.value() * log_std.len() == dispersion(log_std),
{
    lemma_unit_is_positive();
    lemma_dispersion(m, log_std);
    let (e, n, u, t) = (
        entropy.value(),
        log_std.len() as int,
        unit(),
        values_total(m.entropies(log_std)),
    );
    assert((e * n) * u == e * (n * u)) by (nonlinear_arith);
    lemma_cancel(e * n, t, u);
    assert(2 * e * n == 2 * (e * n)) by (nonlinear_arith);
}

proof fn lemma_dispersion(m: Operations, log_std: Seq<Single>)
    requires
        forall|j: int| 0 <= j < log_std.len() ==> disperses_exactly(m, #[trigger] log_std[j]),
    ensures
        2 * values_total(m.entropies(log_std)) == dispersion(log_std),
    decreases log_std.len(),
{
    if log_std.len() > 0 {
        let rest = log_std.drop_last();
        assert forall|j: int| 0 <= j < rest.len() implies disperses_exactly(m, #[trigger] rest[j]) by {
            assert(rest[j] == log_std[j]);
        }
        lemma_dispersion(m, rest);
        assert(m.entropies(log_std).drop_last() =~= m.entropies(rest));
        assert(disperses_exactly(m, log_std[log_std.len() - 1]));
        law_the_entropy_of_a_spread(m, log_std.last());
    }
}

/// What the noise and the spreads of the first `count` numbers make.
pub open spec fn surprises(log_std: Seq<Single>, noise: Seq<Single>, count: int) -> int
    decreases count,
{
    if count <= 0 {
        0
    } else {
        surprises(log_std, noise, count - 1) + surprise(log_std[count - 1], noise[count - 1])
    }
}

/// Where nothing is rounded, the logarithm of the probability of a sample is, but for the factor of minus
/// one half, the total of the squares of its noise, twice the logarithms of the standard deviations and as
/// often that of two pi.
pub proof fn law_the_probability_of_a_sample<A: Arithmetic>(
    arithmetic: A,
    m: Operations,
    distribution: DiagonalGaussian,
    noise: Seq<Vec<Single>>,
    action: Seq<Vec<Single>>,
    r: Seq<Single>,
    b: int,
)
    requires
        m.describes(arithmetic),
        distribution.wf(),
        distribution.are_samples(arithmetic, noise, action),
        distribution.are_log_probabilities(arithmetic, action, r),
        0 <= b < r.len(),
        forall|j: int|
            0 <= j < distribution.log_std@.len() ==> weighs_exactly(
                m,
                distribution.mean@[b]@[j],
                #[trigger] distribution.log_std@[j],
                noise[b]@[j],
            ),
        r[b].value() == values_total(
            m.log_densities(distribution.mean@[b]@, distribution.log_std@, action[b]@),
        ),
    ensures
        -2 * r[b].value() * unit() == surprises(
            distribution.log_std@,
            noise[b]@,
            distribution.log_std@.len() as int,
        ),
{
    let (mean, log_std, row) = (distribution.mean@[b]@, distribution.log_std@, action[b]@);
    let densities = m.log_densities(mean, log_std, row);
    assert(mean.len() == log_std.len());
    assert(row == m.sampled_row(mean, log_std, noise[b]@));
    assert forall|j: int| 0 <= j < densities.len() implies -2 * (#[trigger] densities[j]).value()
        * unit() == surprise(log_std[j], noise[b]@[j]) by {
        assert(weighs_exactly(m, mean[j], log_std[j], noise[b]@[j]));
        law_the_density_of_a_sample(m, mean[j], log_std[j], noise[b]@[j]);
    }
    lemma_surprises_total(densities, log_std, noise[b]@, densities.len() as int);
    assert(densities.take(densities.len() as int) =~= densities);
}

proof fn lemma_surprises_total(
    densities: Seq<Single>,
    log_std: Seq<Single>,
    noise: Seq<Single>,
    count: int,
)
    requires
        0 <= count <= densities.len(),
        forall|j: int|
            0 <= j < densities.len() ==> -2 * (#[trigger] densities[j]).value() * unit()
                == surprise(log_std[j], noise[j]),
    ensures
        -2 * values_total(densities.take(count)) * unit() == surprises(log_std, noise, count),
    decreases count,
{
    if count > 0 {
        lemma_surprises_total(densities, log_std, noise, count - 1);
        assert(densities.take(count).drop_last() =~= densities.take(count - 1));
        let (a, b, u) = (
            values_total(densities.take(count - 1)),
            densities[count - 1].value(),
            unit(),
        );
        assert(-2 * (a + b) * u == -2 * a * u + -2 * b * u) by (nonlinear_arith);
    } else {
        assert(-2 * 0 * unit() == 0) by (nonlinear_arith);
    }
}

} // verus!
