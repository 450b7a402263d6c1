//! Whole numbers as single precision holds them.

use vstd::prelude::*;

verus! {

/// The first whole number above which single precision leaves some out.
pub const EXACT: u64 = 0x100_0000;

/// The distance between neighbouring single-precision numbers at `n`, if it is more than one, and
/// otherwise one.
pub open spec fn unit(n: nat) -> nat
    decreases n,
{
    if n < EXACT {
        1
    } else {
        2 * unit(n / 2)
    }
}

/// The single-precision number nearest to `n`, that with the even quotient where two are as near.
pub open spec fn rounded(n: nat) -> nat {
    let quotient = n / unit(n);
    let rest = n % unit(n);
    if 2 * rest < unit(n) || 2 * rest == unit(n) && quotient % 2 == 0 {
        quotient * unit(n)
    } else {
        (quotient + 1) * unit(n)
    }
}

/// A whole number and its unit: the quotient has at most 24 bits, and exactly 24 where the unit is
/// more than one.
proof fn lemma_unit(n: nat)
    ensures
        unit(n) >= 1,
        n < EXACT * unit(n),
        unit(n) > 1 ==> n >= (EXACT / 2) * unit(n),
        unit(n) <= n || n == 0,
    decreases n,
{
    if n >= EXACT {
        lemma_unit(n / 2);
        let u = unit(n / 2) as int;
        if u == 1 {
        } else {
            assert(n / 2 >= (EXACT / 2) * u);
        }
    }
}

/// Rounds a whole number as a conversion to single precision does.
pub fn round_to_single(n: u64) -> (r: u128)
    ensures
        r == rounded(n as nat),
{
    let mut u: u128 = 1;
    let mut rest: u64 = n;
    while rest >= EXACT
        invariant
            u >= 1,
            u * rest <= n,
            u * unit(rest as nat) == unit(n as nat),
        decreases rest,
    {
        proof {
            lemma_unit((rest / 2) as nat);
            assert(u * (2 * unit((rest / 2) as nat)) == (2 * u) * unit((rest / 2) as nat))
                by (nonlinear_arith);
            assert((2 * u) * (rest / 2) <= u * rest) by (nonlinear_arith)
                requires
                    2 * (rest / 2) <= rest,
                    u >= 1,
            ;
            assert(2 * u <= u * rest) by (nonlinear_arith)
                requires
                    rest >= 2,
                    u >= 1,
            ;
        }
        u = 2 * u;
        rest = rest / 2;
    }
    proof {
        assert(u * 1 == u) by (nonlinear_arith);
        lemma_unit(n as nat);
    }
    let quotient = n as u128 / u;
    let left = n as u128 % u;
    proof {
        assert(quotient * u <= n) by (nonlinear_arith)
            requires
                quotient == n as int / u as int,
                u >= 1,
        ;
        assert((quotient + 1) * u == quotient * u + u) by (nonlinear_arith);
    }
    if 2 * left < u || (2 * left == u && quotient % 2 == 0) {
        quotient * u
    } else {
        (quotient + 1) * u
    }
}

/// The units of two whole numbers are the same, or that of the greater is at least twice as great.
proof fn lemma_units_ordered(a: nat, b: nat)
    requires
        a <= b,
    ensures
        unit(a) == unit(b) || 2 * unit(a) <= unit(b),
    decreases b,
{
    if a < EXACT {
        if b >= EXACT {
            lemma_unit(b / 2);
        }
    } else {
        lemma_units_ordered(a / 2, b / 2);
    }
}

/// What rounds to a multiple of the unit lies between the quotient and the next.
proof fn lemma_rounded_between(n: nat)
    ensures
        (n / unit(n)) * unit(n) <= rounded(n) <= (n / unit(n) + 1) * unit(n),
        n / unit(n) < EXACT,
        unit(n) > 1 ==> n / unit(n) >= EXACT / 2,
{
    lemma_unit(n);
    let u = unit(n) as int;
    let q = n as int / u;
    assert(q * u <= n < (q + 1) * u && (q + 1) * u == q * u + u) by (nonlinear_arith)
        requires
            q == n as int / u,
            u >= 1,
    ;
    assert(q < EXACT) by (nonlinear_arith)
        requires
            q * u <= n,
            n < EXACT * u,
            u >= 1,
    ;
    if u > 1 {
        assert(q >= EXACT / 2) by (nonlinear_arith)
            requires
                n < (q + 1) * u,
                n >= (EXACT / 2) * u,
                u >= 1,
        ;
    }
}

/// Rounding keeps the order of whole numbers.
pub proof fn law_rounding_keeps_order(a: nat, b: nat)
    requires
        a <= b,
    ensures
        rounded(a) <= rounded(b),
{
    lemma_units_ordered(a, b);
    lemma_rounded_between(a);
    lemma_rounded_between(b);
    lemma_unit(a);
    lemma_unit(b);
    let (ua, ub) = (unit(a) as int, unit(b) as int);
    let (qa, qb) = (a as int / ua, b as int / ub);
    if ua == ub {
        assert(qa <= qb) by (nonlinear_arith)
            requires
                qa == a as int / ua,
                qb == b as int / ua,
                a <= b,
                ua >= 1,
        ;
        if qa < qb {
            assert((qa + 1) * ua <= qb * ub) by (nonlinear_arith)
                requires
                    qa + 1 <= qb,
                    ua == ub,
                    ua >= 1,
            ;
        } else {
            assert(a as int % ua <= b as int % ub) by (nonlinear_arith)
                requires
                    a as int / ua == b as int / ub,
                    ua == ub,
                    a <= b,
                    ua >= 1,
            ;
            assert((qa + 1) * ua == qa * ua + ua) by (nonlinear_arith);
        }
    } else {
        assert((qa + 1) * ua <= EXACT * ua) by (nonlinear_arith)
            requires
                qa + 1 <= EXACT,
                ua >= 1,
        ;
        assert(EXACT * ua <= (EXACT / 2) * ub) by (nonlinear_arith)
            requires
                2 * ua <= ub,
        ;
        assert((EXACT / 2) * ub <= qb * ub) by (nonlinear_arith)
            requires
                qb >= EXACT / 2,
                ub >= 1,
        ;
    }
}

/// A whole number of at most 24 bits is not changed.
pub proof fn law_small_numbers_are_exact(n: nat)
    requires
        n <= EXACT,
    ensures
        rounded(n) == n,
{
    if n < EXACT {
        assert(unit(n) == 1);
        assert(n / 1 == n && n % 1 == 0);
        assert(rounded(n) == n) by (nonlinear_arith)
            requires
                rounded(n) == n * 1,
        ;
    } else {
        assert(unit(EXACT as nat / 2) == 1);
        assert(unit(n) == 2);
    }
}

/// A whole number is rounded to the nearest that has 24 bits: by no more than one part in as many as the
/// first numbers that are exact.
pub proof fn law_rounding_goes_to_the_nearest(n: nat)
    ensures
        rounded(n) >= n ==> (rounded(n) - n) * EXACT <= n,
        rounded(n) < n ==> (n - rounded(n)) * EXACT <= n,
        rounded(n) % unit(n) == 0,
        2 * (n % unit(n)) == unit(n) ==> (rounded(n) / unit(n)) % 2 == 0,
{
    lemma_unit(n);
    let u = unit(n) as int;
    let (q, rest) = (n as int / u, n as int % u);
    assert(n == q * u + rest && 0 <= rest < u) by (nonlinear_arith)
        requires
            q == n as int / u,
            rest == n as int % u,
            u >= 1,
    ;
    let up = !(2 * rest < u || 2 * rest == u && q % 2 == 0);
    let k = if up {
        q + 1
    } else {
        q
    };
    let r = rounded(n) as int;
    assert(r == k * u);
    assert((q + 1) * u == q * u + u) by (nonlinear_arith);
    assert(r % u == 0 && r / u == k) by (nonlinear_arith)
        requires
            r == k * u,
            u >= 1,
    ;
    let off = if r >= n {
        r - n
    } else {
        n - r
    };
    if u == 1 {
        assert(off == 0);
    } else {
        assert(2 * off <= u);
        assert(off * EXACT <= n) by (nonlinear_arith)
            requires
                2 * off <= u,
                n >= (EXACT / 2) * u,
                off >= 0,
                EXACT == 0x100_0000,
        ;
    }
}

} // verus!
