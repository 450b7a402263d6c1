//! The body of the walker as segments held together by joints.

use crate::numbers::{
    MINUS_0_1, MINUS_0_7, MINUS_1_2, MINUS_2_3, PLUS_0_2, PLUS_0_3, PLUS_0_4, PLUS_0_6, PLUS_0_8,
    PLUS_10, PLUS_120, PLUS_150, PLUS_1_2, PLUS_1_4, PLUS_1_5, PLUS_20, PLUS_2_2, PLUS_2_5,
    PLUS_35, PLUS_3_5, PLUS_5, PLUS_80,
};
use crate::physics;
use crate::single::{Single, ZERO};
use vstd::prelude::*;

verus! {

/// A rigid segment, with the joints at its end.
#[derive(Debug)]
pub struct Segment {
    pub length: Single,
    pub mass: Single,
    pub joints: Vec<Joint>,
}

/// A joint, with the range of its angle and the segment that hangs on it.
#[derive(Debug)]
pub struct Joint {
    pub angle_min: Single,
    pub angle_max: Single,
    pub max_torque: Single,
    pub child: Segment,
}

/// A body, given by the segment at its root.
#[derive(Debug)]
pub struct Morphology {
    pub root: Segment,
}

impl Segment {
    /// The same measures, and pairwise the same joints.
    pub open spec fn same_as(self, other: Segment) -> bool
        decreases self,
    {
        &&& self.length == other.length
        &&& self.mass == other.mass
        &&& self.joints@.len() == other.joints@.len()
        &&& forall|i: int|
            0 <= i < self.joints@.len() ==> (#[trigger] self.joints@[i]).same_as(other.joints@[i])
    }
}

impl Joint {
    /// The same range and torque, and the same segment hung on the joint.
    pub open spec fn same_as(self, other: Joint) -> bool
        decreases self,
    {
        &&& self.angle_min == other.angle_min
        &&& self.angle_max == other.angle_max
        &&& self.max_torque == other.max_torque
        &&& self.child.same_as(other.child)
    }
}

impl Clone for Segment {
    fn clone(&self) -> (r: Self)
        ensures
            self.same_as(r),
        decreases self,
    {
        let mut joints: Vec<Joint> = Vec::new();
        let mut i: usize = 0;
        while i < self.joints.len()
            invariant
                i <= self.joints@.len(),
                joints@.len() == i,
                forall|k: int| 0 <= k < i ==> (#[trigger] self.joints@[k]).same_as(joints@[k]),
            decreases self.joints@.len() - i,
        {
            let joint = self.joints[i].clone();
            joints.push(joint);
            i = i + 1;
        }
        Segment { length: self.length, mass: self.mass, joints }
    }
}

impl Clone for Joint {
    fn clone(&self) -> (r: Self)
        ensures
            self.same_as(r),
        decreases self,
    {
        Joint {
            angle_min: self.angle_min,
            angle_max: self.angle_max,
            max_torque: self.max_torque,
            child: self.child.clone(),
        }
    }
}

impl Clone for Morphology {
    fn clone(&self) -> (r: Self)
        ensures
            self.root.same_as(r.root),
    {
        Morphology { root: self.root.clone() }
    }
}

impl Segment {
    /// The segment has these measures, by their bit patterns, and this many joints.
    pub open spec fn measures(self, length: u32, mass: u32, joints: nat) -> bool {
        &&& self.length.bits == length
        &&& self.mass.bits == mass
        &&& self.joints@.len() == joints
    }

    /// A segment with these measures, given by their bit patterns.
    fn measured(length: u32, mass: u32, joints: Vec<Joint>) -> (r: Segment)
        ensures
            r.measures(length, mass, joints@.len()),
            r.joints == joints,
    {
        Segment { length: Single { bits: length }, mass: Single { bits: mass }, joints }
    }

    /// The same lengths and masses, the joints being the limits of the segments hung on them.
    pub open spec fn agrees(self, other: physics::Segment) -> bool
        decreases self,
    {
        &&& self.length == other.length
        &&& self.mass == other.mass
        &&& self.joints@.len() == other.children@.len()
        &&& forall|i: int|
            0 <= i < self.joints@.len() ==> {
                let joint = #[trigger] self.joints@[i];
                let child = other.children@[i];
                &&& joint.angle_min == child.angle_min
                &&& joint.angle_max == child.angle_max
                &&& joint.max_torque == child.max_torque
                &&& joint.child.agrees(child)
            }
    }
}

impl Joint {
    /// The joint has this range and this torque, by their bit patterns.
    pub open spec fn turns(self, angle_min: u32, angle_max: u32, max_torque: u32) -> bool {
        &&& self.angle_min.bits == angle_min
        &&& self.angle_max.bits == angle_max
        &&& self.max_torque.bits == max_torque
    }

    /// A joint with this range and this torque, given by their bit patterns.
    fn turning(angle_min: u32, angle_max: u32, max_torque: u32, child: Segment) -> (r: Joint)
        ensures
            r.turns(angle_min, angle_max, max_torque),
            r.child == child,
    {
        Joint {
            angle_min: Single { bits: angle_min },
            angle_max: Single { bits: angle_max },
            max_torque: Single { bits: max_torque },
            child,
        }
    }

    /// A hip, with the thigh, the knee and the shank that hang on it.
    pub open spec fn is_hip(self) -> bool {
        &&& self.turns(MINUS_0_7, PLUS_1_4, PLUS_120)
        &&& self.child.measures(PLUS_0_4, PLUS_10, 1)
        &&& self.child.joints@[0].turns(MINUS_2_3, ZERO, PLUS_80)
        &&& self.child.joints@[0].child.measures(PLUS_0_4, PLUS_3_5, 0)
    }

    /// A shoulder, with the upper arm, the elbow and the forearm that hang on it.
    pub open spec fn is_shoulder(self) -> bool {
        &&& self.turns(MINUS_1_2, PLUS_1_2, PLUS_20)
        &&& self.child.measures(PLUS_0_3, PLUS_2_5, 1)
        &&& self.child.joints@[0].turns(ZERO, PLUS_2_2, PLUS_10)
        &&& self.child.joints@[0].child.measures(PLUS_0_3, PLUS_1_5, 0)
    }

    /// A hip whose knee bends backwards only.
    fn hip() -> (r: Joint)
        ensures
            r.is_hip(),
    {
        let shank = Segment::measured(PLUS_0_4, PLUS_3_5, vec![]);
        let knee = Joint::turning(MINUS_2_3, ZERO, PLUS_80, shank);
        let thigh = Segment::measured(PLUS_0_4, PLUS_10, vec![knee]);
        Joint::turning(MINUS_0_7, PLUS_1_4, PLUS_120, thigh)
    }

    /// A shoulder whose elbow bends forwards only.
    fn shoulder() -> (r: Joint)
        ensures
            r.is_shoulder(),
    {
        let forearm = Segment::measured(PLUS_0_3, PLUS_1_5, vec![]);
        let elbow = Joint::turning(ZERO, PLUS_2_2, PLUS_10, forearm);
        let upper_arm = Segment::measured(PLUS_0_3, PLUS_2_5, vec![elbow]);
        Joint::turning(MINUS_1_2, PLUS_1_2, PLUS_20, upper_arm)
    }
}

impl Morphology {
    /// A head, on which hang a torso with two legs, and two arms.
    pub open spec fn is_humanoid(self) -> bool {
        let head = self.root;
        let neck = head.joints@[0];
        &&& head.measures(PLUS_0_2, PLUS_5, 3)
        &&& neck.turns(MINUS_0_1, PLUS_0_8, PLUS_150)
        &&& neck.child.measures(PLUS_0_6, PLUS_35, 2)
        &&& neck.child.joints@[0].is_hip()
        &&& neck.child.joints@[1].is_hip()
        &&& head.joints@[1].is_shoulder()
        &&& head.joints@[2].is_shoulder()
    }

    /// The body of ten segments that the walker has by default.
    pub fn humanoid() -> (r: Self)
        ensures
            r.is_humanoid(),
    {
        let torso = Segment::measured(PLUS_0_6, PLUS_35, vec![Joint::hip(), Joint::hip()]);
        let neck = Joint::turning(MINUS_0_1, PLUS_0_8, PLUS_150, torso);
        let head = Segment::measured(
            PLUS_0_2,
            PLUS_5,
            vec![neck, Joint::shoulder(), Joint::shoulder()],
        );
        Morphology { root: head }
    }
}

/// The two descriptions of the humanoid are of one body.
pub proof fn law_humanoids_agree(jointed: Morphology, hung: physics::Morphology)
    requires
        jointed.is_humanoid(),
        hung.is_humanoid(),
    ensures
        jointed.root.agrees(hung.root),
{
    reveal_with_fuel(Segment::agrees, 5);
}

} // verus!
