//! What the joints and the ground let the walker do.

use crate::lanes::{filled, pick};
use crate::numbers::ONE_HUNDREDTH;
use crate::single::{Single, ZERO};
use crate::walker::Walker;
use vstd::prelude::*;

verus! {

/// Low enough to touch the ground.
pub open spec fn touches_ground(y: Single) -> bool {
    y.up_to(Single::of(ONE_HUNDREDTH))
}

/// Which particles touch the ground, given their heights.
pub fn grounded(y: &Vec<Single>) -> (r: Vec<bool>)
    ensures
        r@ == Seq::new(y@.len(), |i: int| touches_ground(y@[i])),
{
    let mut r: Vec<bool> = Vec::new();
    let mut i: usize = 0;
    while i < y.len()
        invariant
            i <= y@.len(),
            r@ =~= Seq::new(i as nat, |k: int| touches_ground(y@[k])),
        decreases y@.len() - i,
    {
        r.push(y[i].at_most(Single { bits: ONE_HUNDREDTH }));
        i = i + 1;
    }
    r
}

/// How far friction draws each particle back: as given where it touches the ground, and not at all in
/// the air.
pub open spec fn held_back(y: Seq<Single>, friction: Seq<Single>) -> Seq<Single> {
    Seq::new(
        y.len(),
        |i: int|
            if touches_ground(y[i]) {
                friction[i]
            } else {
                Single::of(ZERO)
            },
    )
}

/// How far friction draws each particle back, given its height and what friction would do to it on
/// the ground.
pub fn held_by_friction(y: &Vec<Single>, friction: Vec<Single>) -> (r: Vec<Single>)
    requires
        friction@.len() == y@.len(),
    ensures
        r@ == held_back(y@, friction@),
{
    let free = filled(y.len(), Single { bits: ZERO });
    let r = pick(&grounded(y), free, friction);
    assert(r@ =~= held_back(y@, friction@));
    r
}

/// How far each particle is raised out of the ground, given its height: by its depth below it.
pub open spec fn raised(y: Seq<Single>) -> Seq<Single> {
    Seq::new(
        y.len(),
        |i: int|
            if y[i].below(Single::of(ZERO)) {
                y[i].unsigned()
            } else {
                Single::of(ZERO)
            },
    )
}

/// How far each particle is raised out of the ground, given its height.
pub fn lifts(y: &Vec<Single>) -> (r: Vec<Single>)
    ensures
        r@ == raised(y@),
{
    let mut r: Vec<Single> = Vec::new();
    let mut i: usize = 0;
    while i < y.len()
        invariant
            i <= y@.len(),
            r@.len() == i,
            forall|k: int| 0 <= k < i ==> #[trigger] r@[k] == raised(y@)[k],
        decreases y@.len() - i,
    {
        r.push(
            if y[i].less_than(Single { bits: ZERO }) {
                y[i].abs()
            } else {
                Single { bits: ZERO }
            },
        );
        i = i + 1;
    }
    assert(r@ =~= raised(y@));
    r
}

impl Walker {
    /// The angles at the joints of a walker, each drawn into the range of its joint.
    pub open spec fn limited(&self, angles: Seq<Single>) -> Seq<Single> {
        Seq::new(
            angles.len(),
            |j: int| angles[j].drawn_between(self.joint_angle_min@[j], self.joint_angle_max@[j]),
        )
    }

    /// Draws the angles at the joints of a walker into their ranges.
    pub fn limit_angles(&self, angles: &Vec<Single>) -> (r: Vec<Single>)
        requires
            self.wf(),
            angles@.len() == self.joint_pairs@.len(),
        ensures
            r@ == self.limited(angles@),
    {
        let mut r: Vec<Single> = Vec::new();
        let mut j: usize = 0;
        while j < angles.len()
            invariant
                self.wf(),
                angles@.len() == self.joint_pairs@.len(),
                j <= angles@.len(),
                r@.len() == j,
                forall|k: int| 0 <= k < j ==> #[trigger] r@[k] == self.limited(angles@)[k],
            decreases angles@.len() - j,
        {
            r.push(angles[j].limit(self.joint_angle_min[j], self.joint_angle_max[j]));
            j = j + 1;
        }
        assert(r@ =~= self.limited(angles@));
        r
    }
}

/// An angle drawn into a range lies in it, and one that lies in it is left alone.
pub proof fn law_limited_angles_lie_in_range(angle: Single, low: Single, high: Single)
    requires
        low.up_to(high),
        !angle.nan(),
    ensures
        low.up_to(angle.drawn_between(low, high)),
        angle.drawn_between(low, high).up_to(high),
        low.up_to(angle) && angle.up_to(high) ==> angle.drawn_between(low, high) == angle,
{
}

} // verus!
