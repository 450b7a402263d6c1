//! Joining the lists of the steps of a rollout into one, step after step.

use crate::lanes::copied;
use crate::single::{Single, ONE, ZERO};
use vstd::prelude::*;

verus! {

/// The entries of the first `count` lists, one list after the other.
pub open spec fn joined<T>(lists: Seq<Vec<T>>, count: int) -> Seq<T>
    decreases count,
{
    if count <= 0 {
        Seq::empty()
    } else {
        joined(lists, count - 1) + lists[count - 1]@
    }
}

/// Every list has this many entries.
pub open spec fn are_even<T>(lists: Seq<Vec<T>>, width: nat) -> bool {
    forall|t: int| 0 <= t < lists.len() ==> (#[trigger] lists[t])@.len() == width
}

/// Where the entry of a list stands in lists of the same length that are joined.
pub proof fn law_joined_lists_keep_their_order<T>(
    lists: Seq<Vec<T>>,
    count: int,
    width: nat,
    t: int,
    b: int,
)
    requires
        0 <= count <= lists.len(),
        are_even(lists, width),
        0 <= t < count,
        0 <= b < width,
    ensures
        0 <= t * width + b < joined(lists, count).len(),
        joined(lists, count)[t * width + b] == lists[t]@[b],
    decreases count,
{
    lemma_joined_length(lists, count, width);
    lemma_joined_length(lists, count - 1, width);
    assert(lists[count - 1]@.len() == width);
    assert(count * width == (count - 1) * width + width) by (nonlinear_arith);
    if t == count - 1 {
        assert(0 <= t * width) by (nonlinear_arith)
            requires
                t >= 0,
        ;
    } else {
        law_joined_lists_keep_their_order(lists, count - 1, width, t, b);
    }
}

/// Joined lists have the entries of all of them.
pub proof fn lemma_joined_length<T>(lists: Seq<Vec<T>>, count: int, width: nat)
    requires
        0 <= count <= lists.len(),
        are_even(lists, width),
    ensures
        joined(lists, count).len() == count * width,
    decreases count,
{
    if count > 0 {
        lemma_joined_length(lists, count - 1, width);
        assert(lists[count - 1]@.len() == width);
        assert(count * width == (count - 1) * width + width) by (nonlinear_arith);
    } else {
        assert(0 * width == 0) by (nonlinear_arith);
    }
}

/// Joins the lists, one after the other.
pub fn join_numbers(lists: &Vec<Vec<Single>>) -> (r: Vec<Single>)
    ensures
        r@ == joined(lists@, lists@.len() as int),
{
    let mut r: Vec<Single> = Vec::new();
    let mut t: usize = 0;
    while t < lists.len()
        invariant
            t <= lists@.len(),
            r@ == joined(lists@, t as int),
        decreases lists@.len() - t,
    {
        let ghost before = r@;
        let mut b: usize = 0;
        while b < lists[t].len()
            invariant
                t < lists@.len(),
                b <= lists@[t as int]@.len(),
                r@ =~= before + lists@[t as int]@.take(b as int),
            decreases lists@[t as int]@.len() - b,
        {
            r.push(lists[t][b]);
            b = b + 1;
        }
        assert(lists@[t as int]@.take(b as int) =~= lists@[t as int]@);
        t = t + 1;
    }
    r
}

/// Joins the lists of rows, one after the other.
pub fn join_rows(lists: &Vec<Vec<Vec<Single>>>) -> (r: Vec<Vec<Single>>)
    ensures
        same_rows(r@, joined(lists@, lists@.len() as int)),
{
    let mut r: Vec<Vec<Single>> = Vec::new();
    let mut t: usize = 0;
    while t < lists.len()
        invariant
            t <= lists@.len(),
            same_rows(r@, joined(lists@, t as int)),
        decreases lists@.len() - t,
    {
        let ghost sofar = joined(lists@, t as int);
        let mut b: usize = 0;
        while b < lists[t].len()
            invariant
                t < lists@.len(),
                b <= lists@[t as int]@.len(),
                sofar == joined(lists@, t as int),
                same_rows(r@, sofar + lists@[t as int]@.take(b as int)),
            decreases lists@[t as int]@.len() - b,
        {
            let row = copied(&lists[t][b]);
            r.push(row);
            b = b + 1;
        }
        assert(lists@[t as int]@.take(b as int) =~= lists@[t as int]@);
        t = t + 1;
    }
    r
}

/// The same numbers, row by row.
pub open spec fn same_rows(a: Seq<Vec<Single>>, b: Seq<Vec<Single>>) -> bool {
    a.len() == b.len() && forall|i: int| 0 <= i < a.len() ==> (#[trigger] a[i])@ == b[i]@
}

/// One where the mask is set, zero elsewhere.
pub open spec fn mark(set: bool) -> Single {
    if set {
        Single::of(ONE)
    } else {
        Single::of(ZERO)
    }
}

/// One where a mask is set, zero elsewhere, of the masks one after the other.
pub open spec fn marks(masks: Seq<Vec<bool>>) -> Seq<Single> {
    joined(masks, masks.len() as int).map_values(|set: bool| mark(set))
}

/// Joins the masks, one after the other, with one where they are set and zero elsewhere.
pub fn join_marks(masks: &Vec<Vec<bool>>) -> (r: Vec<Single>)
    ensures
        r@ == marks(masks@),
{
    let mut r: Vec<Single> = Vec::new();
    let mut t: usize = 0;
    while t < masks.len()
        invariant
            t <= masks@.len(),
            r@ =~= joined(masks@, t as int).map_values(|set: bool| mark(set)),
        decreases masks@.len() - t,
    {
        let ghost before = r@;
        let mut b: usize = 0;
        while b < masks[t].len()
            invariant
                t < masks@.len(),
                b <= masks@[t as int]@.len(),
                r@ =~= before + masks@[t as int]@.take(b as int).map_values(|set: bool| mark(set)),
            decreases masks@[t as int]@.len() - b,
        {
            r.push(if masks[t][b] { Single { bits: ONE } } else { Single { bits: ZERO } });
            b = b + 1;
        }
        assert(masks@[t as int]@.take(b as int) =~= masks@[t as int]@);
        t = t + 1;
    }
    r
}

} // verus!
