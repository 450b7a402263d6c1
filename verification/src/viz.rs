//! What is shown of a walker, and how it is steered.

use crate::lanes::filled;
use crate::motion::Point;
use crate::numbers::{MINUS_0_5, PLUS_1_5};
use crate::single::{Single, ZERO};
use crate::walker::{law_edges_reach_every_particle_once, Walker};
use vstd::prelude::*;

verus! {

/// The velocity that the keys ask for: forwards, backwards, or none. Forwards goes before backwards.
pub fn target_velocity(right: bool, left: bool) -> (r: Single)
    ensures
        r.bits == (if right {
            PLUS_1_5
        } else if left {
            MINUS_0_5
        } else {
            ZERO
        }),
{
    if right {
        Single { bits: PLUS_1_5 }
    } else if left {
        Single { bits: MINUS_0_5 }
    } else {
        Single { bits: ZERO }
    }
}

/// The point of particle `i` in a list of coordinates, two to a particle.
pub open spec fn point_at(coordinates: Seq<Single>, i: int) -> Point {
    Point { x: coordinates[2 * i], y: coordinates[2 * i + 1] }
}

/// What is drawn of a walker.
pub struct Scene {
    /// The two ends of each edge.
    pub edges: Vec<(Point, Point)>,
    pub vertices: Vec<Point>,
    pub root: Point,
    pub fallen: bool,
}

impl Walker {
    /// The action is that of the policy, or there is no torque at any joint.
    pub open spec fn is_driven(&self, policy: Option<Vec<Single>>, action: Seq<Single>) -> bool {
        match policy {
            Some(mean) => action == mean@,
            None => action.len() == self.joint_pairs@.len() && forall|j: int|
                0 <= j < action.len() ==> #[trigger] action[j] == Single::of(ZERO),
        }
    }

    /// The torques of one walker: those of the policy, or none where there is no policy.
    pub fn driven_by(&self, policy: Option<Vec<Single>>) -> (action: Vec<Single>)
        ensures
            action@ == (match policy {
                Some(mean) => mean@,
                None => Seq::new(self.joint_pairs@.len(), |j: int| Single::of(ZERO)),
            }),
            self.is_driven(policy, action@),
    {
        match policy {
            Some(mean) => mean,
            None => filled(self.action_dim(), Single { bits: ZERO }),
        }
    }

    /// The scene is drawn from the coordinates: edge by edge and vertex by vertex.
    pub open spec fn is_scene(&self, coordinates: Seq<Single>, scene: Scene) -> bool {
        &&& scene.edges@.len() == self.edges@.len()
        &&& forall|i: int|
            0 <= i < self.edges@.len() ==> #[trigger] scene.edges@[i] == (
                point_at(coordinates, self.edges@[i].0 as int),
                point_at(coordinates, self.edges@[i].1 as int),
            )
        &&& scene.vertices@.len() == coordinates.len() / 2
        &&& forall|i: int|
            0 <= i < scene.vertices@.len() ==> #[trigger] scene.vertices@[i] == point_at(
                coordinates,
                i,
            )
        &&& scene.root == point_at(coordinates, 0)
        &&& scene.fallen == coordinates[1].below(self.config.fall_y)
    }

    /// What is drawn of a walker with the given coordinates, two to a particle. It is shown as fallen
    /// when its root is lower than the height of a fall.
    pub fn scene(&self, coordinates: &Vec<Single>) -> (scene: Scene)
        requires
            coordinates@.len() >= 2,
            forall|i: int|
                0 <= i < self.edges@.len() ==> 2 * (#[trigger] self.edges@[i]).0 + 1
                    < coordinates@.len(),
            forall|i: int|
                0 <= i < self.edges@.len() ==> 2 * (#[trigger] self.edges@[i]).1 + 1
                    < coordinates@.len(),
        ensures
            scene.edges@ == Seq::new(
                self.edges@.len(),
                |i: int|
                    (
                        point_at(coordinates@, self.edges@[i].0 as int),
                        point_at(coordinates@, self.edges@[i].1 as int),
                    ),
            ),
            scene.vertices@ == Seq::new(
                (coordinates@.len() / 2) as nat,
                |i: int| point_at(coordinates@, i),
            ),
            scene.root == point_at(coordinates@, 0),
            scene.fallen == coordinates@[1].below(self.config.fall_y),
            self.is_scene(coordinates@, scene),
    {
        let length = coordinates.len();
        let mut edges: Vec<(Point, Point)> = Vec::new();
        let mut i: usize = 0;
        while i < self.edges.len()
            invariant
                forall|i: int|
                    0 <= i < self.edges@.len() ==> 2 * (#[trigger] self.edges@[i]).0 + 1
                        < coordinates@.len(),
                forall|i: int|
                    0 <= i < self.edges@.len() ==> 2 * (#[trigger] self.edges@[i]).1 + 1
                        < coordinates@.len(),
                length == coordinates@.len(),
                i <= self.edges@.len(),
                edges@ =~= Seq::new(
                    i as nat,
                    |i: int|
                        (
                            point_at(coordinates@, self.edges@[i].0 as int),
                            point_at(coordinates@, self.edges@[i].1 as int),
                        ),
                ),
            decreases self.edges@.len() - i,
        {
            assert(2 * self.edges@[i as int].0 + 1 < coordinates@.len());
            assert(2 * self.edges@[i as int].1 + 1 < coordinates@.len());
            let (p1, p2) = (self.edges[i].0, self.edges[i].1);
            edges.push(
                (
                    Point { x: coordinates[2 * p1], y: coordinates[2 * p1 + 1] },
                    Point { x: coordinates[2 * p2], y: coordinates[2 * p2 + 1] },
                ),
            );
            i = i + 1;
        }
        let mut vertices: Vec<Point> = Vec::new();
        let mut k: usize = 0;
        let count = length / 2;
        while k < count
            invariant
                length == coordinates@.len(),
                count == length / 2,
                k <= count,
                vertices@ =~= Seq::new(k as nat, |i: int| point_at(coordinates@, i)),
            decreases count - k,
        {
            vertices.push(Point { x: coordinates[2 * k], y: coordinates[2 * k + 1] });
            k = k + 1;
        }
        let root = Point { x: coordinates[0], y: coordinates[1] };
        let fallen = coordinates[1].less_than(self.config.fall_y);
        Scene { edges, vertices, root, fallen }
    }
}

/// The coordinates of all particles are enough to draw every edge.
pub proof fn law_edges_lie_in_the_scene(walker: Walker, coordinates: Seq<Single>, edge: int)
    requires
        walker.wf(),
        coordinates.len() == 2 * walker.n_particles,
        0 <= edge < walker.edges@.len(),
    ensures
        2 * walker.edges@[edge].0 + 1 < coordinates.len(),
        2 * walker.edges@[edge].1 + 1 < coordinates.len(),
{
    law_edges_reach_every_particle_once(walker, edge + 1);
}

/// A scene shows every particle where its two coordinates are, every edge between the vertices of its two
/// particles, the root at the first vertex, and the walker as fallen just where the root is lower than the
/// height of a fall.
pub proof fn law_scenes_join_their_vertices(
    walker: Walker,
    coordinates: Seq<Single>,
    scene: Scene,
    edge: int,
    k: int,
)
    requires
        walker.wf(),
        coordinates.len() == 2 * walker.n_particles,
        walker.is_scene(coordinates, scene),
        0 <= edge < walker.edges@.len(),
        0 <= k < walker.n_particles,
    ensures
        scene.vertices@.len() == walker.n_particles,
        scene.vertices@[k].x == coordinates[2 * k],
        scene.vertices@[k].y == coordinates[2 * k + 1],
        scene.edges@.len() == walker.n_particles - 1,
        scene.edges@[edge].0 == scene.vertices@[walker.edges@[edge].0 as int],
        scene.edges@[edge].1 == scene.vertices@[walker.edges@[edge].1 as int],
        scene.root == scene.vertices@[0],
        !scene.root.y.nan() && !walker.config.fall_y.nan() ==> (scene.fallen <==> scene.root.y.value()
            < walker.config.fall_y.value()),
        scene.root.y.nan() ==> !scene.fallen,
{
    law_edges_reach_every_particle_once(walker, edge + 1);
}

/// A policy drives the walker by just what it says, however much that is; without one, no joint is driven.
pub proof fn law_policies_drive_by_what_they_say(
    walker: Walker,
    policy: Option<Vec<Single>>,
    action: Seq<Single>,
    j: int,
)
    requires
        walker.is_driven(policy, action),
        0 <= j < action.len(),
    ensures
        policy matches Some(mean) ==> action.len() == mean@.len() && action[j] == mean@[j],
        policy is None ==> action.len() == walker.joint_pairs@.len() && action[j].value() == 0,
{
    assert(Single::of(ZERO).value() == 0);
}

} // verus!
