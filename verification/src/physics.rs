//! The body of the walker and its settings.

use crate::numbers::{
    MINUS_0_1, MINUS_0_7, MINUS_1_2, MINUS_2_3, ONE_SIXTIETH, PLUS_0_2, PLUS_0_3, PLUS_0_4,
    PLUS_0_6, PLUS_0_8, PLUS_10, PLUS_120, PLUS_150, PLUS_1_2, PLUS_1_3, PLUS_1_4, PLUS_1_5,
    PLUS_20, PLUS_2_2, PLUS_2_5, PLUS_35, PLUS_3_5, PLUS_5, PLUS_80, PLUS_9_8,
};
use crate::single::{Single, ONE, ZERO};
use crate::traversal::{segments, segments_of};
use vstd::prelude::*;

verus! {

/// A rigid segment of the body, with the segments that hang on its end.
#[derive(Debug)]
pub struct Segment {
    pub length: Single,
    pub mass: Single,
    pub angle_min: Single,
    pub angle_max: Single,
    pub max_torque: Single,
    pub children: Vec<Segment>,
}

/// A body, given by the segment at its root.
#[derive(Debug)]
pub struct Morphology {
    pub root: Segment,
}

impl Segment {
    /// The same measures, and pairwise the same segments hung on the end.
    pub open spec fn same_as(self, other: Segment) -> bool
        decreases self,
    {
        &&& self.length == other.length
        &&& self.mass == other.mass
        &&& self.angle_min == other.angle_min
        &&& self.angle_max == other.angle_max
        &&& self.max_torque == other.max_torque
        &&& self.children@.len() == other.children@.len()
        &&& forall|i: int|
            0 <= i < self.children@.len() ==> (#[trigger] self.children@[i]).same_as(
                other.children@[i],
            )
    }
}

impl Clone for Segment {
    fn clone(&self) -> (r: Self)
        ensures
            self.same_as(r),
        decreases self,
    {
        let mut children: Vec<Segment> = Vec::new();
        let mut i: usize = 0;
        while i < self.children.len()
            invariant
                i <= self.children@.len(),
                children@.len() == i,
                forall|k: int|
                    0 <= k < i ==> (#[trigger] self.children@[k]).same_as(children@[k]),
            decreases self.children@.len() - i,
        {
            let child = self.children[i].clone();
            children.push(child);
            i = i + 1;
        }
        Segment {
            length: self.length,
            mass: self.mass,
            angle_min: self.angle_min,
            angle_max: self.angle_max,
            max_torque: self.max_torque,
            children,
        }
    }
}

impl Clone for Morphology {
    fn clone(&self) -> (r: Self)
        ensures
            self.root.same_as(r.root),
    {
        Morphology { root: self.root.clone() }
    }
}

/// What the walker is made of and how it is simulated.
pub struct WalkerConfig {
    pub gravity: Single,
    pub morphology: Morphology,
    pub time_step: Single,
    pub friction: Single,
    pub fall_y: Single,
    pub constraint_iterations: usize,
}

impl Default for WalkerConfig {
    /// A humanoid under the gravity of the earth, in steps of a sixtieth of a second.
    fn default() -> (r: Self)
        ensures
            r.gravity.bits == PLUS_9_8,
            r.morphology.is_humanoid(),
            segments(r.morphology.root) == 10,
            r.time_step.bits == ONE_SIXTIETH,
            r.friction.bits == ONE,
            r.fall_y.bits == PLUS_1_3,
            r.constraint_iterations == 4,
    {
        WalkerConfig {
            gravity: Single { bits: PLUS_9_8 },
            morphology: Morphology::humanoid(),
            time_step: Single { bits: ONE_SIXTIETH },
            friction: Single { bits: ONE },
            fall_y: Single { bits: PLUS_1_3 },
            constraint_iterations: 4,
        }
    }
}

impl Segment {
    /// The segment has these measures, by their bit patterns, and this many children.
    pub open spec fn measures(
        self,
        length: u32,
        mass: u32,
        angle_min: u32,
        angle_max: u32,
        max_torque: u32,
        children: nat,
    ) -> bool {
        &&& self.length.bits == length
        &&& self.mass.bits == mass
        &&& self.angle_min.bits == angle_min
        &&& self.angle_max.bits == angle_max
        &&& self.max_torque.bits == max_torque
        &&& self.children@.len() == children
    }

    /// A segment with these measures, given by their bit patterns.
    fn measured(
        length: u32,
        mass: u32,
        angle_min: u32,
        angle_max: u32,
        max_torque: u32,
        children: Vec<Segment>,
    ) -> (r: Segment)
        ensures
            r.measures(length, mass, angle_min, angle_max, max_torque, children@.len()),
            r.children == children,
    {
        Segment {
            length: Single { bits: length },
            mass: Single { bits: mass },
            angle_min: Single { bits: angle_min },
            angle_max: Single { bits: angle_max },
            max_torque: Single { bits: max_torque },
            children,
        }
    }

    /// A thigh, with the shank that hangs on it.
    pub open spec fn is_leg(self) -> bool {
        &&& self.measures(PLUS_0_4, PLUS_10, MINUS_0_7, PLUS_1_4, PLUS_120, 1)
        &&& self.children@[0].measures(PLUS_0_4, PLUS_3_5, MINUS_2_3, ZERO, PLUS_80, 0)
    }

    /// An upper arm, with the forearm that hangs on it.
    pub open spec fn is_arm(self) -> bool {
        &&& self.measures(PLUS_0_3, PLUS_2_5, MINUS_1_2, PLUS_1_2, PLUS_20, 1)
        &&& self.children@[0].measures(PLUS_0_3, PLUS_1_5, ZERO, PLUS_2_2, PLUS_10, 0)
    }

    /// A leg, whose knee bends backwards only.
    fn leg() -> (r: Segment)
        ensures
            r.is_leg(),
    {
        let shank = Segment::measured(PLUS_0_4, PLUS_3_5, MINUS_2_3, ZERO, PLUS_80, vec![]);
        Segment::measured(PLUS_0_4, PLUS_10, MINUS_0_7, PLUS_1_4, PLUS_120, vec![shank])
    }

    /// An arm, whose elbow bends forwards only.
    fn arm() -> (r: Segment)
        ensures
            r.is_arm(),
    {
        let forearm = Segment::measured(PLUS_0_3, PLUS_1_5, ZERO, PLUS_2_2, PLUS_10, vec![]);
        Segment::measured(PLUS_0_3, PLUS_2_5, MINUS_1_2, PLUS_1_2, PLUS_20, vec![forearm])
    }
}

impl Morphology {
    /// A head, on which hang a torso with two legs, and two arms.
    pub open spec fn is_humanoid(self) -> bool {
        let head = self.root;
        let torso = head.children@[0];
        &&& head.measures(PLUS_0_2, PLUS_5, ZERO, ZERO, ZERO, 3)
        &&& torso.measures(PLUS_0_6, PLUS_35, MINUS_0_1, PLUS_0_8, PLUS_150, 2)
        &&& torso.children@[0].is_leg()
        &&& torso.children@[1].is_leg()
        &&& head.children@[1].is_arm()
        &&& head.children@[2].is_arm()
    }

    /// The body of ten segments that the walker has by default.
    pub fn humanoid() -> (r: Self)
        ensures
            r.is_humanoid(),
            segments(r.root) == 10,
    {
        let torso = Segment::measured(
            PLUS_0_6,
            PLUS_35,
            MINUS_0_1,
            PLUS_0_8,
            PLUS_150,
            vec![Segment::leg(), Segment::leg()],
        );
        let head = Segment::measured(
            PLUS_0_2,
            PLUS_5,
            ZERO,
            ZERO,
            ZERO,
            vec![torso, Segment::arm(), Segment::arm()],
        );
        let r = Morphology { root: head };
        proof {
            lemma_humanoid_segments(r);
        }
        r
    }
}

/// The number of segments of a body with at most three segments hung on its root.
proof fn lemma_segments_of_few(body: Segment)
    requires
        body.children@.len() <= 3,
    ensures
        body.children@.len() == 0 ==> segments(body) == 1,
        body.children@.len() == 1 ==> segments(body) == 1 + segments(body.children@[0]),
        body.children@.len() == 2 ==> segments(body) == 1 + segments(body.children@[0]) + segments(
            body.children@[1],
        ),
        body.children@.len() == 3 ==> segments(body) == 1 + segments(body.children@[0]) + segments(
            body.children@[1],
        ) + segments(body.children@[2]),
{
    let children = body.children@;
    assert(segments_of(children, 0) == 0);
    if children.len() >= 1 {
        assert(segments_of(children, 1) == segments(children[0]) + segments_of(children, 0));
    }
    if children.len() >= 2 {
        assert(segments_of(children, 2) == segments(children[1]) + segments_of(children, 1));
    }
    if children.len() >= 3 {
        assert(segments_of(children, 3) == segments(children[2]) + segments_of(children, 2));
    }
}

/// A humanoid has ten segments.
proof fn lemma_humanoid_segments(body: Morphology)
    requires
        body.is_humanoid(),
    ensures
        segments(body.root) == 10,
{
    let head = body.root;
    let torso = head.children@[0];
    assert forall|limb: Segment|
        #![trigger segments(limb)]
        limb.is_leg() || limb.is_arm() implies segments(limb) == 2 by {
        lemma_segments_of_few(limb);
        lemma_segments_of_few(limb.children@[0]);
    }
    lemma_segments_of_few(torso);
    lemma_segments_of_few(head);
}

} // verus!
