//! The arithmetic of single-precision numbers, and what follows from it for lists.
//!
//! The library computes with numbers through an [`Arithmetic`], of which nothing is assumed. A contract
//! says what comes out in terms of [`Operations`] that describe it: functions that give what the
//! arithmetic gives. Where the results of an arithmetic depend on more than its arguments, there are
//! none.

use crate::single::Single;
use vstd::prelude::*;

verus! {

/// The arithmetic of single-precision numbers.
pub trait Arithmetic {
    /// The sum of two numbers.
    fn sum(&self, a: Single, b: Single) -> Single;

    /// The first number less the second.
    fn difference(&self, a: Single, b: Single) -> Single;

    /// The product of two numbers.
    fn product(&self, a: Single, b: Single) -> Single;

    /// The first number divided by the second.
    fn quotient(&self, a: Single, b: Single) -> Single;

    /// The square root of a number.
    fn root(&self, a: Single) -> Single;

    /// The square of a number.
    fn square(&self, a: Single) -> Single;

    /// The cosine of an angle.
    fn cosine(&self, a: Single) -> Single;

    /// The sine of an angle.
    fn sine(&self, a: Single) -> Single;

    /// The hyperbolic tangent of a number.
    fn tangent(&self, a: Single) -> Single;

    /// The exponential of a number.
    fn exponential(&self, a: Single) -> Single;

    /// A whole number, as near as single precision holds it.
    fn whole(&self, n: usize) -> Single;

    /// The sum of all numbers.
    fn total(&self, numbers: &Vec<Single>) -> Single;

    /// The sum of the products of the numbers, pair by pair.
    fn dot(&self, a: &Vec<Single>, b: &Vec<Single>) -> Single;
}

/// What the operations of an arithmetic give, as functions.
pub struct Operations {
    pub sum: spec_fn(Single, Single) -> Single,
    pub difference: spec_fn(Single, Single) -> Single,
    pub product: spec_fn(Single, Single) -> Single,
    pub quotient: spec_fn(Single, Single) -> Single,
    pub root: spec_fn(Single) -> Single,
    pub square: spec_fn(Single) -> Single,
    pub cosine: spec_fn(Single) -> Single,
    pub sine: spec_fn(Single) -> Single,
    pub tangent: spec_fn(Single) -> Single,
    pub exponential: spec_fn(Single) -> Single,
    pub whole: spec_fn(nat) -> Single,
    pub total: spec_fn(Seq<Single>) -> Single,
    pub dot: spec_fn(Seq<Single>, Seq<Single>) -> Single,
}

impl Operations {
    /// Whatever the arithmetic gives, these functions give.
    pub open spec fn describes<A: Arithmetic>(self, arithmetic: A) -> bool {
        &&& forall|a: Single, b: Single, r: Single| #[trigger]
            call_ensures(A::sum, (&arithmetic, a, b), r) ==> r == (self.sum)(a, b)
        &&& forall|a: Single, b: Single, r: Single| #[trigger]
            call_ensures(A::difference, (&arithmetic, a, b), r) ==> r == (self.difference)(a, b)
        &&& forall|a: Single, b: Single, r: Single| #[trigger]
            call_ensures(A::product, (&arithmetic, a, b), r) ==> r == (self.product)(a, b)
        &&& forall|a: Single, b: Single, r: Single| #[trigger]
            call_ensures(A::quotient, (&arithmetic, a, b), r) ==> r == (self.quotient)(a, b)
        &&& forall|a: Single, r: Single| #[trigger]
            call_ensures(A::root, (&arithmetic, a), r) ==> r == (self.root)(a)
        &&& forall|a: Single, r: Single| #[trigger]
            call_ensures(A::square, (&arithmetic, a), r) ==> r == (self.square)(a)
        &&& forall|a: Single, r: Single| #[trigger]
            call_ensures(A::cosine, (&arithmetic, a), r) ==> r == (self.cosine)(a)
        &&& forall|a: Single, r: Single| #[trigger]
            call_ensures(A::sine, (&arithmetic, a), r) ==> r == (self.sine)(a)
        &&& forall|a: Single, r: Single| #[trigger]
            call_ensures(A::tangent, (&arithmetic, a), r) ==> r == (self.tangent)(a)
        &&& forall|a: Single, r: Single| #[trigger]
            call_ensures(A::exponential, (&arithmetic, a), r) ==> r == (self.exponential)(a)
        &&& forall|n: usize, r: Single| #[trigger]
            call_ensures(A::whole, (&arithmetic, n), r) ==> r == (self.whole)(n as nat)
        &&& forall|a: Vec<Single>, r: Single| #[trigger]
            call_ensures(A::total, (&arithmetic, &a), r) ==> r == (self.total)(a@)
        &&& forall|a: Vec<Single>, b: Vec<Single>, r: Single| #[trigger]
            call_ensures(A::dot, (&arithmetic, &a, &b), r) ==> r == (self.dot)(a@, b@)
    }

    /// The sums of the numbers, pair by pair.
    pub open spec fn sums(self, a: Seq<Single>, b: Seq<Single>) -> Seq<Single> {
        Seq::new(a.len(), |i: int| (self.sum)(a[i], b[i]))
    }

    /// The differences of the numbers, pair by pair.
    pub open spec fn differences(self, a: Seq<Single>, b: Seq<Single>) -> Seq<Single> {
        Seq::new(a.len(), |i: int| (self.difference)(a[i], b[i]))
    }

    /// The products of the numbers, pair by pair.
    pub open spec fn products(self, a: Seq<Single>, b: Seq<Single>) -> Seq<Single> {
        Seq::new(a.len(), |i: int| (self.product)(a[i], b[i]))
    }

    /// The quotients of the numbers, pair by pair.
    pub open spec fn quotients(self, a: Seq<Single>, b: Seq<Single>) -> Seq<Single> {
        Seq::new(a.len(), |i: int| (self.quotient)(a[i], b[i]))
    }

    /// The square roots of the numbers.
    pub open spec fn roots(self, a: Seq<Single>) -> Seq<Single> {
        Seq::new(a.len(), |i: int| (self.root)(a[i]))
    }

    /// The squares of the numbers.
    pub open spec fn squares(self, a: Seq<Single>) -> Seq<Single> {
        Seq::new(a.len(), |i: int| (self.square)(a[i]))
    }

    /// The hyperbolic tangents of the numbers.
    pub open spec fn tangents(self, a: Seq<Single>) -> Seq<Single> {
        Seq::new(a.len(), |i: int| (self.tangent)(a[i]))
    }
}

/// The sum of two numbers.
pub fn sum<A: Arithmetic>(arithmetic: &A, a: Single, b: Single) -> (r: Single)
    ensures
        forall|m: Operations| #[trigger] m.describes(*arithmetic) ==> r == (m.sum)(a, b),
{
    let r = arithmetic.sum(a, b);
    assert(call_ensures(A::sum, (arithmetic, a, b), r));
    r
}

/// The first number less the second.
pub fn difference<A: Arithmetic>(arithmetic: &A, a: Single, b: Single) -> (r: Single)
    ensures
        forall|m: Operations| #[trigger] m.describes(*arithmetic) ==> r == (m.difference)(a, b),
{
    let r = arithmetic.difference(a, b);
    assert(call_ensures(A::difference, (arithmetic, a, b), r));
    r
}

/// The product of two numbers.
pub fn product<A: Arithmetic>(arithmetic: &A, a: Single, b: Single) -> (r: Single)
    ensures
        forall|m: Operations| #[trigger] m.describes(*arithmetic) ==> r == (m.product)(a, b),
{
    let r = arithmetic.product(a, b);
    assert(call_ensures(A::product, (arithmetic, a, b), r));
    r
}

/// The first number divided by the second.
pub fn quotient<A: Arithmetic>(arithmetic: &A, a: Single, b: Single) -> (r: Single)
    ensures
        forall|m: Operations| #[trigger] m.describes(*arithmetic) ==> r == (m.quotient)(a, b),
{
    let r = arithmetic.quotient(a, b);
    assert(call_ensures(A::quotient, (arithmetic, a, b), r));
    r
}

/// The square root of a number.
pub fn root<A: Arithmetic>(arithmetic: &A, a: Single) -> (r: Single)
    ensures
        forall|m: Operations| #[trigger] m.describes(*arithmetic) ==> r == (m.root)(a),
{
    let r = arithmetic.root(a);
    assert(call_ensures(A::root, (arithmetic, a), r));
    r
}

/// The square of a number.
pub fn square<A: Arithmetic>(arithmetic: &A, a: Single) -> (r: Single)
    ensures
        forall|m: Operations| #[trigger] m.describes(*arithmetic) ==> r == (m.square)(a),
{
    let r = arithmetic.square(a);
    assert(call_ensures(A::square, (arithmetic, a), r));
    r
}

/// The cosine of an angle.
pub fn cosine<A: Arithmetic>(arithmetic: &A, a: Single) -> (r: Single)
    ensures
        forall|m: Operations| #[trigger] m.describes(*arithmetic) ==> r == (m.cosine)(a),
{
    let r = arithmetic.cosine(a);
    assert(call_ensures(A::cosine, (arithmetic, a), r));
    r
}

/// The sine of an angle.
pub fn sine<A: Arithmetic>(arithmetic: &A, a: Single) -> (r: Single)
    ensures
        forall|m: Operations| #[trigger] m.describes(*arithmetic) ==> r == (m.sine)(a),
{
    let r = arithmetic.sine(a);
    assert(call_ensures(A::sine, (arithmetic, a), r));
    r
}

/// The hyperbolic tangent of a number.
pub fn tangent<A: Arithmetic>(arithmetic: &A, a: Single) -> (r: Single)
    ensures
        forall|m: Operations| #[trigger] m.describes(*arithmetic) ==> r == (m.tangent)(a),
{
    let r = arithmetic.tangent(a);
    assert(call_ensures(A::tangent, (arithmetic, a), r));
    r
}

/// The exponential of a number.
pub fn exponential<A: Arithmetic>(arithmetic: &A, a: Single) -> (r: Single)
    ensures
        forall|m: Operations| #[trigger] m.describes(*arithmetic) ==> r == (m.exponential)(a),
{
    let r = arithmetic.exponential(a);
    assert(call_ensures(A::exponential, (arithmetic, a), r));
    r
}

/// A whole number, as near as single precision holds it.
pub fn whole<A: Arithmetic>(arithmetic: &A, n: usize) -> (r: Single)
    ensures
        forall|m: Operations| #[trigger] m.describes(*arithmetic) ==> r == (m.whole)(n as nat),
{
    let r = arithmetic.whole(n);
    assert(call_ensures(A::whole, (arithmetic, n), r));
    r
}

/// The sum of all numbers.
pub fn total<A: Arithmetic>(arithmetic: &A, numbers: &Vec<Single>) -> (r: Single)
    ensures
        forall|m: Operations| #[trigger] m.describes(*arithmetic) ==> r == (m.total)(numbers@),
{
    let r = arithmetic.total(numbers);
    assert(call_ensures(A::total, (arithmetic, numbers), r));
    r
}

/// The sum of the products of the numbers, pair by pair.
pub fn dot<A: Arithmetic>(arithmetic: &A, a: &Vec<Single>, b: &Vec<Single>) -> (r: Single)
    ensures
        forall|m: Operations| #[trigger] m.describes(*arithmetic) ==> r == (m.dot)(a@, b@),
{
    let r = arithmetic.dot(a, b);
    assert(call_ensures(A::dot, (arithmetic, a, b), r));
    r
}

/// The sums of the numbers, pair by pair.
pub fn sums<A: Arithmetic>(arithmetic: &A, a: &Vec<Single>, b: &Vec<Single>) -> (r: Vec<Single>)
    requires
        b@.len() == a@.len(),
    ensures
        r@.len() == a@.len(),
        forall|m: Operations| #[trigger] m.describes(*arithmetic) ==> r@ == m.sums(a@, b@),
{
    let mut r: Vec<Single> = Vec::new();
    let mut i: usize = 0;
    while i < a.len()
        invariant
            b@.len() == a@.len(),
            i <= a@.len(),
            r@.len() == i,
            forall|m: Operations, k: int| #[trigger]
                m.describes(*arithmetic) && 0 <= k < i ==> #[trigger] r@[k] == (m.sum)(a@[k], b@[k]),
        decreases a@.len() - i,
    {
        r.push(sum(arithmetic, a[i], b[i]));
        i = i + 1;
    }
    assert forall|m: Operations| #[trigger] m.describes(*arithmetic) implies r@ == m.sums(a@, b@) by {
        assert(r@ =~= m.sums(a@, b@));
    }
    r
}

/// The differences of the numbers, pair by pair.
pub fn differences<A: Arithmetic>(
    arithmetic: &A,
    a: &Vec<Single>,
    b: &Vec<Single>,
) -> (r: Vec<Single>)
    requires
        b@.len() == a@.len(),
    ensures
        r@.len() == a@.len(),
        forall|m: Operations| #[trigger] m.describes(*arithmetic) ==> r@ == m.differences(a@, b@),
{
    let mut r: Vec<Single> = Vec::new();
    let mut i: usize = 0;
    while i < a.len()
        invariant
            b@.len() == a@.len(),
            i <= a@.len(),
            r@.len() == i,
            forall|m: Operations, k: int| #[trigger]
                m.describes(*arithmetic) && 0 <= k < i ==> #[trigger] r@[k] == (m.difference)(a@[k], b@[k]),
        decreases a@.len() - i,
    {
        r.push(difference(arithmetic, a[i], b[i]));
        i = i + 1;
    }
    assert forall|m: Operations| #[trigger] m.describes(*arithmetic) implies r@ == m.differences(a@, b@) by {
        assert(r@ =~= m.differences(a@, b@));
    }
    r
}

/// The products of the numbers, pair by pair.
pub fn products<A: Arithmetic>(arithmetic: &A, a: &Vec<Single>, b: &Vec<Single>) -> (r: Vec<Single>)
    requires
        b@.len() == a@.len(),
    ensures
        r@.len() == a@.len(),
        forall|m: Operations| #[trigger] m.describes(*arithmetic) ==> r@ == m.products(a@, b@),
{
    let mut r: Vec<Single> = Vec::new();
    let mut i: usize = 0;
    while i < a.len()
        invariant
            b@.len() == a@.len(),
            i <= a@.len(),
            r@.len() == i,
            forall|m: Operations, k: int| #[trigger]
                m.describes(*arithmetic) && 0 <= k < i ==> #[trigger] r@[k] == (m.product)(a@[k], b@[k]),
        decreases a@.len() - i,
    {
        r.push(product(arithmetic, a[i], b[i]));
        i = i + 1;
    }
    assert forall|m: Operations| #[trigger] m.describes(*arithmetic) implies r@ == m.products(a@, b@) by {
        assert(r@ =~= m.products(a@, b@));
    }
    r
}

/// The quotients of the numbers, pair by pair.
pub fn quotients<A: Arithmetic>(
    arithmetic: &A,
    a: &Vec<Single>,
    b: &Vec<Single>,
) -> (r: Vec<Single>)
    requires
        b@.len() == a@.len(),
    ensures
        r@.len() == a@.len(),
        forall|m: Operations| #[trigger] m.describes(*arithmetic) ==> r@ == m.quotients(a@, b@),
{
    let mut r: Vec<Single> = Vec::new();
    let mut i: usize = 0;
    while i < a.len()
        invariant
            b@.len() == a@.len(),
            i <= a@.len(),
            r@.len() == i,
            forall|m: Operations, k: int| #[trigger]
                m.describes(*arithmetic) && 0 <= k < i ==> #[trigger] r@[k] == (m.quotient)(a@[k], b@[k]),
        decreases a@.len() - i,
    {
        r.push(quotient(arithmetic, a[i], b[i]));
        i = i + 1;
    }
    assert forall|m: Operations| #[trigger] m.describes(*arithmetic) implies r@ == m.quotients(a@, b@) by {
        assert(r@ =~= m.quotients(a@, b@));
    }
    r
}

/// The square roots of the numbers.
pub fn roots<A: Arithmetic>(arithmetic: &A, a: &Vec<Single>) -> (r: Vec<Single>)
    ensures
        r@.len() == a@.len(),
        forall|m: Operations| #[trigger] m.describes(*arithmetic) ==> r@ == m.roots(a@),
{
    let mut r: Vec<Single> = Vec::new();
    let mut i: usize = 0;
    while i < a.len()
        invariant
            i <= a@.len(),
            r@.len() == i,
            forall|m: Operations, k: int| #[trigger]
                m.describes(*arithmetic) && 0 <= k < i ==> #[trigger] r@[k] == (m.root)(a@[k]),
        decreases a@.len() - i,
    {
        r.push(root(arithmetic, a[i]));
        i = i + 1;
    }
    assert forall|m: Operations| #[trigger] m.describes(*arithmetic) implies r@ == m.roots(a@) by {
        assert(r@ =~= m.roots(a@));
    }
    r
}

/// The squares of the numbers.
pub fn squares<A: Arithmetic>(arithmetic: &A, a: &Vec<Single>) -> (r: Vec<Single>)
    ensures
        r@.len() == a@.len(),
        forall|m: Operations| #[trigger] m.describes(*arithmetic) ==> r@ == m.squares(a@),
{
    let mut r: Vec<Single> = Vec::new();
    let mut i: usize = 0;
    while i < a.len()
        invariant
            i <= a@.len(),
            r@.len() == i,
            forall|m: Operations, k: int| #[trigger]
                m.describes(*arithmetic) && 0 <= k < i ==> #[trigger] r@[k] == (m.square)(a@[k]),
        decreases a@.len() - i,
    {
        r.push(square(arithmetic, a[i]));
        i = i + 1;
    }
    assert forall|m: Operations| #[trigger] m.describes(*arithmetic) implies r@ == m.squares(a@) by {
        assert(r@ =~= m.squares(a@));
    }
    r
}

/// The hyperbolic tangents of the numbers.
pub fn tangents<A: Arithmetic>(arithmetic: &A, a: &Vec<Single>) -> (r: Vec<Single>)
    ensures
        r@.len() == a@.len(),
        forall|m: Operations| #[trigger] m.describes(*arithmetic) ==> r@ == m.tangents(a@),
{
    let mut r: Vec<Single> = Vec::new();
    let mut i: usize = 0;
    while i < a.len()
        invariant
            i <= a@.len(),
            r@.len() == i,
            forall|m: Operations, k: int| #[trigger]
                m.describes(*arithmetic) && 0 <= k < i ==> #[trigger] r@[k] == (m.tangent)(a@[k]),
        decreases a@.len() - i,
    {
        r.push(tangent(arithmetic, a[i]));
        i = i + 1;
    }
    assert forall|m: Operations| #[trigger] m.describes(*arithmetic) implies r@ == m.tangents(a@) by {
        assert(r@ =~= m.tangents(a@));
    }
    r
}

/// An operation on lists is that on numbers, number by number.
pub proof fn law_lists_go_number_by_number(m: Operations, a: Seq<Single>, b: Seq<Single>, i: int)
    requires
        0 <= i < a.len(),
        b.len() == a.len(),
    ensures
        m.sums(a, b).len() == a.len() && m.sums(a, b)[i] == (m.sum)(a[i], b[i]),
        m.differences(a, b).len() == a.len() && m.differences(a, b)[i] == (m.difference)(a[i], b[i]),
        m.products(a, b).len() == a.len() && m.products(a, b)[i] == (m.product)(a[i], b[i]),
        m.quotients(a, b).len() == a.len() && m.quotients(a, b)[i] == (m.quotient)(a[i], b[i]),
        m.roots(a).len() == a.len() && m.roots(a)[i] == (m.root)(a[i]),
        m.squares(a).len() == a.len() && m.squares(a)[i] == (m.square)(a[i]),
        m.tangents(a).len() == a.len() && m.tangents(a)[i] == (m.tangent)(a[i]),
{
}

/// The results of the arithmetic depend on their arguments alone.
pub open spec fn is_single_valued<A: Arithmetic>(arithmetic: A) -> bool {
    &&& forall|a: Single, b: Single, r: Single, s: Single| #[trigger]
        call_ensures(A::sum, (&arithmetic, a, b), r) && #[trigger] call_ensures(
            A::sum,
            (&arithmetic, a, b),
            s,
        ) ==> r == s
    &&& forall|a: Single, b: Single, r: Single, s: Single| #[trigger]
        call_ensures(A::difference, (&arithmetic, a, b), r) && #[trigger] call_ensures(
            A::difference,
            (&arithmetic, a, b),
            s,
        ) ==> r == s
    &&& forall|a: Single, b: Single, r: Single, s: Single| #[trigger]
        call_ensures(A::product, (&arithmetic, a, b), r) && #[trigger] call_ensures(
            A::product,
            (&arithmetic, a, b),
            s,
        ) ==> r == s
    &&& forall|a: Single, b: Single, r: Single, s: Single| #[trigger]
        call_ensures(A::quotient, (&arithmetic, a, b), r) && #[trigger] call_ensures(
            A::quotient,
            (&arithmetic, a, b),
            s,
        ) ==> r == s
    &&& forall|a: Single, r: Single, s: Single| #[trigger]
        call_ensures(A::root, (&arithmetic, a), r) && #[trigger] call_ensures(
            A::root,
            (&arithmetic, a),
            s,
        ) ==> r == s
    &&& forall|a: Single, r: Single, s: Single| #[trigger]
        call_ensures(A::square, (&arithmetic, a), r) && #[trigger] call_ensures(
            A::square,
            (&arithmetic, a),
            s,
        ) ==> r == s
    &&& forall|a: Single, r: Single, s: Single| #[trigger]
        call_ensures(A::cosine, (&arithmetic, a), r) && #[trigger] call_ensures(
            A::cosine,
            (&arithmetic, a),
            s,
        ) ==> r == s
    &&& forall|a: Single, r: Single, s: Single| #[trigger]
        call_ensures(A::sine, (&arithmetic, a), r) && #[trigger] call_ensures(
            A::sine,
            (&arithmetic, a),
            s,
        ) ==> r == s
    &&& forall|a: Single, r: Single, s: Single| #[trigger]
        call_ensures(A::tangent, (&arithmetic, a), r) && #[trigger] call_ensures(
            A::tangent,
            (&arithmetic, a),
            s,
        ) ==> r == s
    &&& forall|a: Single, r: Single, s: Single| #[trigger]
        call_ensures(A::exponential, (&arithmetic, a), r) && #[trigger] call_ensures(
            A::exponential,
            (&arithmetic, a),
            s,
        ) ==> r == s
    &&& forall|n: usize, r: Single, s: Single| #[trigger]
        call_ensures(A::whole, (&arithmetic, n), r) && #[trigger] call_ensures(
            A::whole,
            (&arithmetic, n),
            s,
        ) ==> r == s
    &&& forall|a: Vec<Single>, b: Vec<Single>, r: Single, s: Single|
        a@ == b@ && #[trigger] call_ensures(A::total, (&arithmetic, &a), r)
            && #[trigger] call_ensures(A::total, (&arithmetic, &b), s) ==> r == s
    &&& forall|
        a: Vec<Single>,
        b: Vec<Single>,
        c: Vec<Single>,
        d: Vec<Single>,
        r: Single,
        s: Single,
    |
        a@ == c@ && b@ == d@ && #[trigger] call_ensures(A::dot, (&arithmetic, &a, &b), r)
            && #[trigger] call_ensures(A::dot, (&arithmetic, &c, &d), s) ==> r == s
}

spec fn gives_whole<A: Arithmetic>(arithmetic: A, n: nat, r: Single) -> bool {
    exists|k: usize| k == n && #[trigger] call_ensures(A::whole, (&arithmetic, k), r)
}

spec fn gives_total<A: Arithmetic>(arithmetic: A, a: Seq<Single>, r: Single) -> bool {
    exists|v: Vec<Single>| v@ == a && #[trigger] call_ensures(A::total, (&arithmetic, &v), r)
}

spec fn gives_dot<A: Arithmetic>(arithmetic: A, a: Seq<Single>, b: Seq<Single>, r: Single) -> bool {
    exists|v: Vec<Single>, w: Vec<Single>|
        v@ == a && w@ == b && #[trigger] call_ensures(A::dot, (&arithmetic, &v, &w), r)
}

/// An arithmetic whose results depend on their arguments alone is described by operations.
pub proof fn law_single_valued_arithmetic_is_described<A: Arithmetic>(
    arithmetic: A,
) -> (m: Operations)
    requires
        is_single_valued(arithmetic),
    ensures
        m.describes(arithmetic),
{
    let m = Operations {
        sum: |a: Single, b: Single|
            choose|r: Single| call_ensures(A::sum, (&arithmetic, a, b), r),
        difference: |a: Single, b: Single|
            choose|r: Single| call_ensures(A::difference, (&arithmetic, a, b), r),
        product: |a: Single, b: Single|
            choose|r: Single| call_ensures(A::product, (&arithmetic, a, b), r),
        quotient: |a: Single, b: Single|
            choose|r: Single| call_ensures(A::quotient, (&arithmetic, a, b), r),
        root: |a: Single| choose|r: Single| call_ensures(A::root, (&arithmetic, a), r),
        square: |a: Single| choose|r: Single| call_ensures(A::square, (&arithmetic, a), r),
        cosine: |a: Single| choose|r: Single| call_ensures(A::cosine, (&arithmetic, a), r),
        sine: |a: Single| choose|r: Single| call_ensures(A::sine, (&arithmetic, a), r),
        tangent: |a: Single| choose|r: Single| call_ensures(A::tangent, (&arithmetic, a), r),
        exponential: |a: Single| choose|r: Single| call_ensures(A::exponential, (&arithmetic, a), r),
        whole: |n: nat| choose|r: Single| gives_whole(arithmetic, n, r),
        total: |a: Seq<Single>| choose|r: Single| gives_total(arithmetic, a, r),
        dot: |a: Seq<Single>, b: Seq<Single>| choose|r: Single| gives_dot(arithmetic, a, b, r),
    };
    assert forall|n: usize, r: Single| #[trigger]
        call_ensures(A::whole, (&arithmetic, n), r) implies r == (m.whole)(n as nat) by {
        assert(gives_whole(arithmetic, n as nat, r));
        assert(gives_whole(arithmetic, n as nat, (m.whole)(n as nat)));
    }
    assert forall|a: Vec<Single>, r: Single| #[trigger]
        call_ensures(A::total, (&arithmetic, &a), r) implies r == (m.total)(a@) by {
        assert(gives_total(arithmetic, a@, r));
        assert(gives_total(arithmetic, a@, (m.total)(a@)));
    }
    assert forall|a: Vec<Single>, b: Vec<Single>, r: Single| #[trigger]
        call_ensures(A::dot, (&arithmetic, &a, &b), r) implies r == (m.dot)(a@, b@) by {
        assert(gives_dot(arithmetic, a@, b@, r));
        assert(gives_dot(arithmetic, a@, b@, (m.dot)(a@, b@)));
    }
    m
}

} // verus!
