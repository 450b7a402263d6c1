//! Choosing between numbers lane by lane.

use crate::single::{law_negation_turns_the_value, Single};
use vstd::prelude::*;

verus! {

/// Lane by lane, what `other` holds where the mask is set and what `own` holds elsewhere.
pub open spec fn picked<T>(mask: Seq<bool>, own: Seq<T>, other: Seq<T>) -> Seq<T> {
    Seq::new(
        own.len(),
        |i: int|
            if mask[i] {
                other[i]
            } else {
                own[i]
            },
    )
}

/// Replaces what `own` holds by what `other` holds, in the lanes where the mask is set.
pub fn pick<T>(mask: &Vec<bool>, own: Vec<T>, other: Vec<T>) -> (r: Vec<T>)
    requires
        mask@.len() == own@.len(),
        other@.len() == own@.len(),
    ensures
        r@ == picked(mask@, own@, other@),
{
    let mut r = own;
    let mut rest = other;
    while rest.len() > 0
        invariant
            mask@.len() == own@.len(),
            other@.len() == own@.len(),
            rest@.len() <= other@.len(),
            r@.len() == own@.len(),
            rest@ == other@.take(rest@.len() as int),
            forall|i: int| 0 <= i < rest@.len() ==> #[trigger] r@[i] == own@[i],
            forall|i: int|
                rest@.len() <= i < own@.len() ==> #[trigger] r@[i] == picked(mask@, own@, other@)[i],
        decreases rest@.len(),
    {
        let last = rest.pop().unwrap();
        let i = rest.len();
        if mask[i] {
            r[i] = last;
        }
    }
    assert(r@ =~= picked(mask@, own@, other@));
    r
}

/// The same number in every lane.
pub open spec fn repeated(number: Single, count: nat) -> Seq<Single> {
    Seq::new(count, |i: int| number)
}

/// The same number in every lane.
pub fn filled(count: usize, number: Single) -> (r: Vec<Single>)
    ensures
        r@ == repeated(number, count as nat),
{
    let mut r: Vec<Single> = Vec::new();
    let mut i: usize = 0;
    while i < count
        invariant
            i <= count,
            r@ =~= repeated(number, i as nat),
        decreases count - i,
    {
        r.push(number);
        i = i + 1;
    }
    r
}

/// Copies numbers.
pub fn copied(numbers: &Vec<Single>) -> (r: Vec<Single>)
    ensures
        r@ == numbers@,
{
    let mut r: Vec<Single> = Vec::new();
    let mut i: usize = 0;
    while i < numbers.len()
        invariant
            i <= numbers@.len(),
            r@ == numbers@.take(i as int),
        decreases numbers@.len() - i,
    {
        r.push(numbers[i]);
        i = i + 1;
        assert(r@ =~= numbers@.take(i as int));
    }
    assert(numbers@.take(i as int) =~= numbers@);
    r
}

/// The numbers with the other sign.
pub open spec fn negatives(numbers: Seq<Single>) -> Seq<Single> {
    Seq::new(numbers.len(), |i: int| numbers[i].negated())
}

/// The numbers with the other sign.
pub fn negated_lanes(numbers: &Vec<Single>) -> (r: Vec<Single>)
    ensures
        r@ == negatives(numbers@),
{
    let mut r: Vec<Single> = Vec::new();
    let mut i: usize = 0;
    while i < numbers.len()
        invariant
            i <= numbers@.len(),
            r@ =~= Seq::new(i as nat, |i: int| numbers@[i].negated()),
        decreases numbers@.len() - i,
    {
        r.push(numbers[i].negate());
        i = i + 1;
    }
    r
}

/// The numbers, none less than `least`.
pub open spec fn floors(numbers: Seq<Single>, least: Single) -> Seq<Single> {
    Seq::new(numbers.len(), |i: int| numbers[i].floored(least))
}

/// The numbers, none less than `least`.
pub fn floored_lanes(numbers: &Vec<Single>, least: Single) -> (r: Vec<Single>)
    ensures
        r@ == floors(numbers@, least),
{
    let mut r: Vec<Single> = Vec::new();
    let mut i: usize = 0;
    while i < numbers.len()
        invariant
            i <= numbers@.len(),
            r@ =~= Seq::new(i as nat, |i: int| numbers@[i].floored(least)),
        decreases numbers@.len() - i,
    {
        r.push(numbers[i].at_least(least));
        i = i + 1;
    }
    r
}

/// The numbers, then those of `other`.
pub fn followed_by(numbers: Vec<Single>, other: &Vec<Single>) -> (r: Vec<Single>)
    ensures
        r@ == numbers@ + other@,
{
    let mut r = numbers;
    let mut i: usize = 0;
    while i < other.len()
        invariant
            i <= other@.len(),
            r@ =~= numbers@ + other@.take(i as int),
        decreases other@.len() - i,
    {
        r.push(other[i]);
        i = i + 1;
    }
    assert(other@.take(i as int) =~= other@);
    r
}

/// There are `count` rows of `width` numbers each.
pub open spec fn is_grid(rows: Seq<Vec<Single>>, count: nat, width: nat) -> bool {
    &&& rows.len() == count
    &&& forall|b: int| 0 <= b < count ==> (#[trigger] rows[b])@.len() == width
}

/// Whether there are `count` rows of `width` numbers each.
pub fn has_grid(rows: &Vec<Vec<Single>>, count: usize, width: usize) -> (r: bool)
    ensures
        r == is_grid(rows@, count as nat, width as nat),
{
    if rows.len() != count {
        return false;
    }
    let mut b: usize = 0;
    while b < count
        invariant
            rows@.len() == count,
            b <= count,
            forall|i: int| 0 <= i < b ==> (#[trigger] rows@[i])@.len() == width,
        decreases count - b,
    {
        if rows[b].len() != width {
            assert(rows@[b as int]@.len() != width);
            return false;
        }
        b = b + 1;
    }
    true
}

/// Lane by lane, a list of negatives has the values with the other sign, and one that is floored has the
/// values, or the least one where they are less.
pub proof fn law_lanes_are_negated_and_floored(numbers: Seq<Single>, least: Single, i: int)
    requires
        0 <= i < numbers.len(),
    ensures
        negatives(numbers).len() == numbers.len(),
        negatives(numbers)[i].value() == -numbers[i].value(),
        floors(numbers, least).len() == numbers.len(),
        !numbers[i].nan() && !least.nan() ==> floors(numbers, least)[i].value() == if numbers[i].value()
            < least.value() {
            least.value()
        } else {
            numbers[i].value()
        },
        numbers[i].nan() ==> floors(numbers, least)[i] == numbers[i],
{
    law_negation_turns_the_value(numbers[i]);
}

/// Lane by lane, what is picked is the other where the mask is set, and the own elsewhere.
pub proof fn law_masks_pick_lane_by_lane<T>(mask: Seq<bool>, own: Seq<T>, other: Seq<T>, i: int)
    requires
        mask.len() == own.len() == other.len(),
        0 <= i < mask.len(),
    ensures
        picked(mask, own, other).len() == mask.len(),
        mask[i] ==> picked(mask, own, other)[i] == other[i],
        !mask[i] ==> picked(mask, own, other)[i] == own[i],
{
}

/// A mask that is set nowhere changes nothing, and one that is set everywhere changes all.
pub proof fn law_uniform_masks<T>(mask: Seq<bool>, own: Seq<T>, other: Seq<T>)
    requires
        mask.len() == own.len(),
        other.len() == own.len(),
    ensures
        (forall|i: int| 0 <= i < mask.len() ==> !mask[i]) ==> picked(mask, own, other) == own,
        (forall|i: int| 0 <= i < mask.len() ==> mask[i]) ==> picked(mask, own, other) == other,
{
    if forall|i: int| 0 <= i < mask.len() ==> !mask[i] {
        assert(picked(mask, own, other) =~= own);
    }
    if forall|i: int| 0 <= i < mask.len() ==> mask[i] {
        assert(picked(mask, own, other) =~= other);
    }
}

/// Picking twice by one mask is picking once.
pub proof fn law_picking_again_changes_nothing<T>(mask: Seq<bool>, own: Seq<T>, other: Seq<T>)
    requires
        mask.len() == own.len(),
        other.len() == own.len(),
    ensures
        picked(mask, picked(mask, own, other), other) == picked(mask, own, other),
{
    assert(picked(mask, picked(mask, own, other), other) =~= picked(mask, own, other));
}

} // verus!
