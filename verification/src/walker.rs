//! The skeleton of the walker: particles joined by edges, and joints between edges.

use crate::arithmetic::{product, quotient, sum, sums, Arithmetic, Operations};
use crate::fidelity::{
    lemma_cancel, lemma_whole_numbers, product_is_exact, quotient_is_exact, sum_is_exact, unit,
    values_total,
};
use crate::incidence::{incidence, is_incidence};
use crate::lanes::{floored_lanes, floors};
use crate::layout::{lay_edges, widened, Layout};
use crate::numbers::{MINUS_0_8, ONE_MILLIONTH, PLUS_0_5};
use crate::physics::WalkerConfig;
use crate::single::{Single, ONE, ZERO};
use crate::traversal::{
    hangs_on_earlier, lemma_visits_count, lemma_visits_hang, segments, visits, Visit,
};
use vstd::prelude::*;

verus! {

/// The skeleton that a body is simulated by.
///
/// Each segment is an edge between two particles. Every edge but the first hangs on the end of an
/// earlier one, and each such pair of edges is a joint.
pub struct Walker {
    pub config: WalkerConfig,
    /// The two particles of each edge, and its length.
    pub edges: Vec<(usize, usize, Single)>,
    /// For each joint, the start of the parent edge, the particle at the joint, and the end of the
    /// child edge.
    pub joint_pairs: Vec<(usize, usize, usize)>,
    pub edge_idx_1: Vec<i32>,
    pub edge_idx_2: Vec<i32>,
    pub edge_lengths: Vec<Single>,
    /// Row by row, with a row for each particle: a column for the start of each edge, then one,
    /// negated, for its end.
    pub edge_map_combined: Vec<Single>,
    /// Row by row, with a row for each particle: a column for the first particle of each joint,
    /// then for the second, then for the third.
    pub joint_map_combined: Vec<Single>,
    pub joint_idx_p: Vec<i32>,
    pub joint_idx_j: Vec<i32>,
    pub joint_idx_c: Vec<i32>,
    pub joint_angle_min: Vec<Single>,
    pub joint_angle_max: Vec<Single>,
    pub joint_parent_lengths: Vec<Single>,
    pub joint_child_lengths: Vec<Single>,
    pub joint_max_torques: Vec<Single>,
    /// For each particle, the masses of the segments that end or start in it, each of which gives
    /// it half of its mass.
    pub mass_shares: Vec<Vec<Single>>,
    pub masses: Vec<Single>,
    pub inv_masses: Vec<Single>,
    /// The inverse masses at the start and at the end of each edge, and their sum, which is kept from
    /// vanishing.
    pub edge_w1: Vec<Single>,
    pub edge_w2: Vec<Single>,
    pub edge_w_sum: Vec<Single>,
    /// The inverse masses of the three particles of each joint.
    pub joint_w_p: Vec<Single>,
    pub joint_w_j: Vec<Single>,
    pub joint_w_c: Vec<Single>,
    pub n_particles: usize,
    pub init_p1: Vec<usize>,
    pub init_p2: Vec<usize>,
    pub init_lengths: Vec<Single>,
    pub init_angle_min: Vec<Single>,
    pub init_angle_max: Vec<Single>,
    pub init_parent_edge: Vec<Option<usize>>,
    /// The range of the random angle by which each edge turns away from its parent at the start.
    pub init_eff_min: Vec<Single>,
    pub init_eff_max: Vec<Single>,
}

/// The edge on whose end edge `i` hangs.
pub open spec fn parent_edge(v: Seq<Visit>, i: int) -> int {
    v[i].parent->0
}

/// The masses of the first `count` segments that touch a particle.
pub open spec fn shares_at(v: Seq<Visit>, count: int, particle: int) -> Seq<Single>
    decreases count,
{
    if count <= 0 {
        Seq::empty()
    } else if v[count - 1].start == particle || count == particle {
        shares_at(v, count - 1, particle).push(v[count - 1].segment.mass)
    } else {
        shares_at(v, count - 1, particle)
    }
}

/// There is room for the matrices of a body of this many segments, and an index for each particle.
pub open spec fn has_room(count: nat) -> bool {
    &&& (count + 1) * (3 * count) <= usize::MAX
    &&& count < i32::MAX
}

/// The numbers that the indices name.
pub open spec fn weights_at(numbers: Seq<Single>, indices: Seq<i32>) -> Seq<Single> {
    Seq::new(indices.len(), |i: int| numbers[indices[i] as int])
}

impl Operations {
    /// The mass of a particle that is given half of each segment it touches.
    pub open spec fn mass(self, shares: Seq<Single>) -> Single
        decreases shares.len(),
    {
        if shares.len() == 0 {
            Single::of(ZERO)
        } else {
            (self.sum)(
                self.mass(shares.drop_last()),
                (self.product)(shares.last(), Single::of(PLUS_0_5)),
            )
        }
    }

    /// One divided by a mass, and zero for a particle without mass, which keeps it in its place.
    pub open spec fn inverse_mass(self, mass: Single) -> Single {
        if Single::of(ZERO).below(mass) {
            (self.quotient)(Single::of(ONE), mass)
        } else {
            Single::of(ZERO)
        }
    }
}

impl Walker {
    /// The visits of the body.
    pub open spec fn order(&self) -> Seq<Visit> {
        visits(self.config.morphology.root, 0, None, 0)
    }

    /// One edge for each visit, edge `i` ending in particle `i + 1`.
    pub open spec fn has_edges(&self, v: Seq<Visit>) -> bool {
        &&& self.n_particles == v.len() + 1
        &&& self.edges@.len() == v.len()
        &&& forall|i: int|
            0 <= i < v.len() ==> {
                let edge = #[trigger] self.edges@[i];
                &&& edge.0 == v[i].start
                &&& edge.1 == i + 1
                &&& edge.2 == v[i].segment.length
            }
        &&& self.edge_idx_1@ == Seq::new(v.len(), |i: int| self.edges@[i].0 as i32)
        &&& self.edge_idx_2@ == Seq::new(v.len(), |i: int| self.edges@[i].1 as i32)
        &&& self.edge_lengths@ == Seq::new(v.len(), |i: int| v[i].segment.length)
    }

    /// What the first placing of the particles needs of each edge.
    pub open spec fn has_start(&self, v: Seq<Visit>) -> bool {
        &&& self.init_p1@ == Seq::new(v.len(), |i: int| self.edges@[i].0)
        &&& self.init_p2@ == Seq::new(v.len(), |i: int| self.edges@[i].1)
        &&& self.init_lengths@ == Seq::new(v.len(), |i: int| v[i].segment.length)
        &&& self.init_angle_min@ == Seq::new(v.len(), |i: int| v[i].segment.angle_min)
        &&& self.init_angle_max@ == Seq::new(v.len(), |i: int| v[i].segment.angle_max)
        &&& self.init_parent_edge@.len() == v.len()
        &&& forall|i: int|
            0 <= i < v.len() ==> widened(#[trigger] self.init_parent_edge@[i]) == v[i].parent
        &&& self.init_eff_min@ == Seq::new(
            v.len(),
            |i: int|
                if v[i].parent is None {
                    Single::of(MINUS_0_8)
                } else {
                    v[i].segment.angle_min
                },
        )
        &&& self.init_eff_max@ == Seq::new(
            v.len(),
            |i: int|
                if v[i].parent is None {
                    Single::of(ZERO)
                } else {
                    v[i].segment.angle_max
                },
        )
    }

    /// One joint for each edge but the first: joint `j` is where edge `j + 1` hangs.
    pub open spec fn has_joints(&self, v: Seq<Visit>) -> bool {
        &&& self.joint_pairs@.len() == v.len() - 1
        &&& forall|j: int|
            0 <= j < v.len() - 1 ==> {
                let joint = #[trigger] self.joint_pairs@[j];
                &&& joint.0 == v[parent_edge(v, j + 1)].start
                &&& joint.1 == v[j + 1].start
                &&& joint.2 == j + 2
            }
        &&& self.joint_idx_p@ == Seq::new(
            self.joint_pairs@.len(),
            |j: int| self.joint_pairs@[j].0 as i32,
        )
        &&& self.joint_idx_j@ == Seq::new(
            self.joint_pairs@.len(),
            |j: int| self.joint_pairs@[j].1 as i32,
        )
        &&& self.joint_idx_c@ == Seq::new(
            self.joint_pairs@.len(),
            |j: int| self.joint_pairs@[j].2 as i32,
        )
        &&& self.joint_angle_min@ == Seq::new(
            self.joint_pairs@.len(),
            |j: int| v[j + 1].segment.angle_min,
        )
        &&& self.joint_angle_max@ == Seq::new(
            self.joint_pairs@.len(),
            |j: int| v[j + 1].segment.angle_max,
        )
        &&& self.joint_parent_lengths@ == Seq::new(
            self.joint_pairs@.len(),
            |j: int| v[parent_edge(v, j + 1)].segment.length,
        )
        &&& self.joint_child_lengths@ == Seq::new(
            self.joint_pairs@.len(),
            |j: int| v[j + 1].segment.length,
        )
        &&& self.joint_max_torques@ == Seq::new(
            self.joint_pairs@.len(),
            |j: int| v[j + 1].segment.max_torque,
        )
    }

    /// The particles that the columns of the edge map belong to.
    pub open spec fn edge_columns(&self) -> Seq<usize> {
        Seq::new(
            2 * self.edges@.len(),
            |c: int|
                if c < self.edges@.len() {
                    self.edges@[c].0
                } else {
                    self.edges@[c - self.edges@.len()].1
                },
        )
    }

    /// The particles that the columns of the joint map belong to.
    pub open spec fn joint_columns(&self) -> Seq<usize> {
        let n = self.joint_pairs@.len();
        Seq::new(
            3 * n,
            |c: int|
                if c < n {
                    self.joint_pairs@[c].0
                } else if c < 2 * n {
                    self.joint_pairs@[c - n].1
                } else {
                    self.joint_pairs@[c - 2 * n].2
                },
        )
    }

    /// The maps from edges and joints to particles.
    pub open spec fn has_maps(&self) -> bool {
        &&& is_incidence(
            self.edge_map_combined@,
            self.n_particles as int,
            self.edge_columns(),
            self.edges@.len() as int,
        )
        &&& is_incidence(
            self.joint_map_combined@,
            self.n_particles as int,
            self.joint_columns(),
            self.joint_columns().len() as int,
        )
    }

    /// The masses of the segments that touch each particle, in the order of their edges.
    pub open spec fn has_shares(&self, v: Seq<Visit>) -> bool {
        &&& self.mass_shares@.len() == self.n_particles
        &&& forall|k: int|
            0 <= k < self.n_particles ==> (#[trigger] self.mass_shares@[k])@ == shares_at(
                v,
                v.len() as int,
                k,
            )
    }

    /// The weights of the edges and joints are the inverse masses of their particles, and no sum of the
    /// weights of an edge is less than a millionth.
    pub open spec fn has_weights(&self) -> bool {
        &&& self.masses@.len() == self.n_particles
        &&& self.inv_masses@.len() == self.n_particles
        &&& forall|k: int|
            0 <= k < self.n_particles && !Single::of(ZERO).below(self.masses@[k])
                ==> #[trigger] self.inv_masses@[k] == Single::of(ZERO)
        &&& self.edge_w1@ == weights_at(self.inv_masses@, self.edge_idx_1@)
        &&& self.edge_w2@ == weights_at(self.inv_masses@, self.edge_idx_2@)
        &&& self.edge_w_sum@.len() == self.edges@.len()
        &&& forall|i: int|
            0 <= i < self.edges@.len() ==> !(#[trigger] self.edge_w_sum@[i]).below(
                Single::of(ONE_MILLIONTH),
            )
        &&& self.joint_w_p@ == weights_at(self.inv_masses@, self.joint_idx_p@)
        &&& self.joint_w_j@ == weights_at(self.inv_masses@, self.joint_idx_j@)
        &&& self.joint_w_c@ == weights_at(self.inv_masses@, self.joint_idx_c@)
    }

    /// The masses, their inverses and the sums of the weights are what the operations make of the
    /// segments.
    pub open spec fn weighs(&self, m: Operations) -> bool {
        &&& self.masses@ == Seq::new(
            self.mass_shares@.len(),
            |k: int| m.mass(self.mass_shares@[k]@),
        )
        &&& self.inv_masses@ == Seq::new(
            self.masses@.len(),
            |k: int| m.inverse_mass(self.masses@[k]),
        )
        &&& self.edge_w_sum@ == floors(
            m.sums(self.edge_w1@, self.edge_w2@),
            Single::of(ONE_MILLIONTH),
        )
    }

    /// The skeleton is that of its body.
    pub open spec fn wf(&self) -> bool {
        &&& self.has_weights()
        &&& self.n_particles <= i32::MAX
        &&& self.has_edges(self.order())
        &&& self.has_start(self.order())
        &&& self.has_joints(self.order())
        &&& self.has_maps()
        &&& self.has_shares(self.order())
    }
}

/// The joints of a layout, in the order of the edges that hang on them.
struct Joints {
    pairs: Vec<(usize, usize, usize)>,
    idx_p: Vec<i32>,
    idx_j: Vec<i32>,
    idx_c: Vec<i32>,
    parent_lengths: Vec<Single>,
    angle_min: Vec<Single>,
    angle_max: Vec<Single>,
    child_lengths: Vec<Single>,
    max_torques: Vec<Single>,
}

impl Joints {
    /// The joints at which edges 1 to `count` hang.
    spec fn are(&self, v: Seq<Visit>, count: nat) -> bool {
        &&& self.pairs@.len() == count
        &&& forall|j: int|
            0 <= j < count ==> {
                let joint = #[trigger] self.pairs@[j];
                &&& joint.0 == v[parent_edge(v, j + 1)].start
                &&& joint.1 == v[j + 1].start
                &&& joint.2 == j + 2
            }
        &&& self.idx_p@ =~= Seq::new(count, |j: int| self.pairs@[j].0 as i32)
        &&& self.idx_j@ =~= Seq::new(count, |j: int| self.pairs@[j].1 as i32)
        &&& self.idx_c@ =~= Seq::new(count, |j: int| self.pairs@[j].2 as i32)
        &&& self.angle_min@ =~= Seq::new(count, |j: int| v[j + 1].segment.angle_min)
        &&& self.angle_max@ =~= Seq::new(count, |j: int| v[j + 1].segment.angle_max)
        &&& self.parent_lengths@ =~= Seq::new(
            count,
            |j: int| v[parent_edge(v, j + 1)].segment.length,
        )
        &&& self.child_lengths@ =~= Seq::new(count, |j: int| v[j + 1].segment.length)
        &&& self.max_torques@ =~= Seq::new(count, |j: int| v[j + 1].segment.max_torque)
    }
}

/// Every visit but the first hangs on the end of an earlier edge.
spec fn hangs(v: Seq<Visit>) -> bool {
    &&& v.len() > 0
    &&& v[0].parent is None
    &&& v[0].start == 0
    &&& forall|i: int| 0 < i < v.len() ==> #[trigger] hangs_on_earlier(v, 0, i)
}

/// Collects the joints of a layout.
fn joints_of(layout: &Layout, Ghost(v): Ghost<Seq<Visit>>) -> (joints: Joints)
    requires
        layout.lays(v),
        hangs(v),
        v.len() < usize::MAX,
    ensures
        joints.are(v, (v.len() - 1) as nat),
{
    let mut joints = Joints {
        pairs: Vec::new(),
        idx_p: Vec::new(),
        idx_j: Vec::new(),
        idx_c: Vec::new(),
        parent_lengths: Vec::new(),
        angle_min: Vec::new(),
        angle_max: Vec::new(),
        child_lengths: Vec::new(),
        max_torques: Vec::new(),
    };
    let count = layout.starts.len();
    let mut i: usize = 0;
    while i < count
        invariant
            count == v.len(),
            count < usize::MAX,
            i <= count,
            layout.lays(v),
            hangs(v),
            joints.are(v, if i == 0 { 0 } else { (i - 1) as nat }),
        decreases count - i,
    {
        proof {
            assert(layout.edge_is(i as int, v[i as int]));
            if i > 0 {
                assert(hangs_on_earlier(v, 0, i as int));
            }
        }
        match layout.parents[i] {
            Some(parent) => {
                assert(layout.edge_is(parent as int, v[parent as int]));
                let (p, j, c) = (layout.starts[parent], layout.starts[i], i + 1);
                joints.pairs.push((p, j, c));
                joints.idx_p.push(p as i32);
                joints.idx_j.push(j as i32);
                joints.idx_c.push(c as i32);
                joints.angle_min.push(layout.angle_min[i]);
                joints.angle_max.push(layout.angle_max[i]);
                joints.parent_lengths.push(layout.lengths[parent]);
                joints.child_lengths.push(layout.lengths[i]);
                joints.max_torques.push(layout.max_torques[i]);
            },
            None => {},
        }
        i = i + 1;
    }
    joints
}

/// The masses of the segments that touch a particle, in the order of their edges.
fn shares_of(layout: &Layout, particle: usize, Ghost(v): Ghost<Seq<Visit>>) -> (shares: Vec<Single>)
    requires
        layout.lays(v),
        v.len() < usize::MAX,
    ensures
        shares@ == shares_at(v, v.len() as int, particle as int),
{
    let mut shares: Vec<Single> = Vec::new();
    let count = layout.starts.len();
    let mut i: usize = 0;
    while i < count
        invariant
            count == v.len(),
            count < usize::MAX,
            i <= count,
            layout.lays(v),
            shares@ == shares_at(v, i as int, particle as int),
        decreases count - i,
    {
        assert(layout.edge_is(i as int, v[i as int]));
        if layout.starts[i] == particle || i + 1 == particle {
            shares.push(layout.masses[i]);
        }
        i = i + 1;
    }
    shares
}

/// The edges of a layout, with their ends.
struct Edges {
    pairs: Vec<(usize, usize, Single)>,
    idx_1: Vec<i32>,
    idx_2: Vec<i32>,
    lengths: Vec<Single>,
    ends: Vec<usize>,
    eff_min: Vec<Single>,
    eff_max: Vec<Single>,
}

impl Edges {
    /// The first `count` edges.
    spec fn are(&self, v: Seq<Visit>, count: nat) -> bool {
        &&& self.pairs@.len() == count
        &&& forall|i: int|
            0 <= i < count ==> {
                let edge = #[trigger] self.pairs@[i];
                &&& edge.0 == v[i].start
                &&& edge.1 == i + 1
                &&& edge.2 == v[i].segment.length
            }
        &&& self.idx_1@ =~= Seq::new(count, |i: int| self.pairs@[i].0 as i32)
        &&& self.idx_2@ =~= Seq::new(count, |i: int| self.pairs@[i].1 as i32)
        &&& self.lengths@ =~= Seq::new(count, |i: int| v[i].segment.length)
        &&& self.ends@ =~= Seq::new(count, |i: int| self.pairs@[i].1)
        &&& self.eff_min@ =~= Seq::new(
            count,
            |i: int|
                if v[i].parent is None {
                    Single::of(MINUS_0_8)
                } else {
                    v[i].segment.angle_min
                },
        )
        &&& self.eff_max@ =~= Seq::new(
            count,
            |i: int|
                if v[i].parent is None {
                    Single::of(ZERO)
                } else {
                    v[i].segment.angle_max
                },
        )
    }
}

/// Collects the edges of a layout.
fn edges_of(layout: &Layout, Ghost(v): Ghost<Seq<Visit>>) -> (edges: Edges)
    requires
        layout.lays(v),
        v.len() < usize::MAX,
    ensures
        edges.are(v, v.len()),
{
    let mut edges = Edges {
        pairs: Vec::new(),
        idx_1: Vec::new(),
        idx_2: Vec::new(),
        lengths: Vec::new(),
        ends: Vec::new(),
        eff_min: Vec::new(),
        eff_max: Vec::new(),
    };
    let count = layout.starts.len();
    let mut i: usize = 0;
    while i < count
        invariant
            count == v.len(),
            count < usize::MAX,
            i <= count,
            layout.lays(v),
            edges.are(v, i as nat),
        decreases count - i,
    {
        assert(layout.edge_is(i as int, v[i as int]));
        let (start, end) = (layout.starts[i], i + 1);
        edges.pairs.push((start, end, layout.lengths[i]));
        edges.idx_1.push(start as i32);
        edges.idx_2.push(end as i32);
        edges.lengths.push(layout.lengths[i]);
        edges.ends.push(end);
        match layout.parents[i] {
            Some(_) => {
                edges.eff_min.push(layout.angle_min[i]);
                edges.eff_max.push(layout.angle_max[i]);
            },
            None => {
                edges.eff_min.push(Single { bits: MINUS_0_8 });
                edges.eff_max.push(Single { bits: ZERO });
            },
        }
        i = i + 1;
    }
    edges
}

/// The starts of the edges, then their ends.
fn edge_columns_of(pairs: &Vec<(usize, usize, Single)>) -> (columns: Vec<usize>)
    requires
        2 * pairs@.len() <= usize::MAX,
    ensures
        columns@ == Seq::new(
            2 * pairs@.len(),
            |c: int|
                if c < pairs@.len() {
                    pairs@[c].0
                } else {
                    pairs@[c - pairs@.len()].1
                },
        ),
{
    let n = pairs.len();
    let mut columns: Vec<usize> = Vec::new();
    let mut c: usize = 0;
    while c < 2 * n
        invariant
            n == pairs@.len(),
            2 * n <= usize::MAX,
            c <= 2 * n,
            columns@ =~= Seq::new(
                c as nat,
                |k: int|
                    if k < n {
                        pairs@[k].0
                    } else {
                        pairs@[k - n].1
                    },
            ),
        decreases 2 * n - c,
    {
        if c < n {
            columns.push(pairs[c].0);
        } else {
            columns.push(pairs[c - n].1);
        }
        c = c + 1;
    }
    columns
}

/// The first particles of the joints, then the second, then the third.
fn joint_columns_of(pairs: &Vec<(usize, usize, usize)>) -> (columns: Vec<usize>)
    requires
        3 * pairs@.len() <= usize::MAX,
    ensures
        columns@ == Seq::new(
            3 * pairs@.len(),
            |c: int|
                if c < pairs@.len() {
                    pairs@[c].0
                } else if c < 2 * pairs@.len() {
                    pairs@[c - pairs@.len()].1
                } else {
                    pairs@[c - 2 * pairs@.len()].2
                },
        ),
{
    let n = pairs.len();
    let mut columns: Vec<usize> = Vec::new();
    let mut c: usize = 0;
    while c < 3 * n
        invariant
            n == pairs@.len(),
            3 * n <= usize::MAX,
            c <= 3 * n,
            columns@ =~= Seq::new(
                c as nat,
                |k: int|
                    if k < n {
                        pairs@[k].0
                    } else if k < 2 * n {
                        pairs@[k - n].1
                    } else {
                        pairs@[k - 2 * n].2
                    },
            ),
        decreases 3 * n - c,
    {
        if c < n {
            columns.push(pairs[c].0);
        } else if c < 2 * n {
            columns.push(pairs[c - n].1);
        } else {
            columns.push(pairs[c - 2 * n].2);
        }
        c = c + 1;
    }
    columns
}

/// The mass of a particle that is given half of each segment it touches.
fn mass_of<A: Arithmetic>(arithmetic: &A, shares: &Vec<Single>) -> (r: Single)
    ensures
        forall|m: Operations| #[trigger] m.describes(*arithmetic) ==> r == m.mass(shares@),
{
    let mut r = Single { bits: ZERO };
    let mut i: usize = 0;
    while i < shares.len()
        invariant
            i <= shares@.len(),
            forall|m: Operations| #[trigger]
                m.describes(*arithmetic) ==> r == m.mass(shares@.take(i as int)),
        decreases shares@.len() - i,
    {
        let half = product(arithmetic, shares[i], Single { bits: PLUS_0_5 });
        r = sum(arithmetic, r, half);
        i = i + 1;
        assert(shares@.take(i as int).drop_last() =~= shares@.take(i - 1));
    }
    assert(shares@.take(i as int) =~= shares@);
    r
}

/// The masses of the particles, given the segments that touch them, and their inverses.
fn weigh<A: Arithmetic>(
    arithmetic: &A,
    shares: &Vec<Vec<Single>>,
) -> (r: (Vec<Single>, Vec<Single>))
    ensures
        r.0@.len() == shares@.len(),
        r.1@.len() == shares@.len(),
        forall|k: int|
            0 <= k < shares@.len() && !Single::of(ZERO).below(r.0@[k]) ==> #[trigger] r.1@[k]
                == Single::of(ZERO),
        forall|m: Operations| #[trigger]
            m.describes(*arithmetic) ==> {
                &&& r.0@ == Seq::new(shares@.len(), |k: int| m.mass(shares@[k]@))
                &&& r.1@ == Seq::new(shares@.len(), |k: int| m.inverse_mass(r.0@[k]))
            },
{
    let mut masses: Vec<Single> = Vec::new();
    let mut inverses: Vec<Single> = Vec::new();
    let mut k: usize = 0;
    while k < shares.len()
        invariant
            k <= shares@.len(),
            masses@.len() == k,
            inverses@.len() == k,
            forall|i: int|
                0 <= i < k && !Single::of(ZERO).below(masses@[i]) ==> #[trigger] inverses@[i]
                    == Single::of(ZERO),
            forall|m: Operations, i: int| #[trigger]
                m.describes(*arithmetic) && 0 <= i < k ==> #[trigger] masses@[i] == m.mass(
                    shares@[i]@,
                ),
            forall|m: Operations, i: int| #[trigger]
                m.describes(*arithmetic) && 0 <= i < k ==> #[trigger] inverses@[i]
                    == m.inverse_mass(masses@[i]),
        decreases shares@.len() - k,
    {
        let mass = mass_of(arithmetic, &shares[k]);
        let inverse = if (Single { bits: ZERO }).less_than(mass) {
            quotient(arithmetic, Single { bits: ONE }, mass)
        } else {
            Single { bits: ZERO }
        };
        masses.push(mass);
        inverses.push(inverse);
        k = k + 1;
    }
    assert forall|m: Operations| #[trigger] m.describes(*arithmetic) implies masses@ == Seq::new(
        shares@.len(),
        |k: int| m.mass(shares@[k]@),
    ) && inverses@ == Seq::new(shares@.len(), |k: int| m.inverse_mass(masses@[k])) by {
        assert(masses@ =~= Seq::new(shares@.len(), |k: int| m.mass(shares@[k]@)));
        assert(inverses@ =~= Seq::new(shares@.len(), |k: int| m.inverse_mass(masses@[k])));
    }
    (masses, inverses)
}

/// The numbers that the indices name.
fn picked_weights(numbers: &Vec<Single>, indices: &Vec<i32>) -> (r: Vec<Single>)
    requires
        forall|i: int| 0 <= i < indices@.len() ==> 0 <= #[trigger] indices@[i] < numbers@.len(),
    ensures
        r@ == weights_at(numbers@, indices@),
{
    let mut r: Vec<Single> = Vec::new();
    let mut i: usize = 0;
    while i < indices.len()
        invariant
            forall|i: int| 0 <= i < indices@.len() ==> 0 <= #[trigger] indices@[i] < numbers@.len(),
            i <= indices@.len(),
            r@ =~= Seq::new(i as nat, |i: int| numbers@[indices@[i] as int]),
        decreases indices@.len() - i,
    {
        assert(0 <= indices@[i as int] < numbers@.len());
        r.push(numbers[indices[i] as usize]);
        i = i + 1;
    }
    r
}

impl Walker {
    /// Builds the skeleton of a body.
    pub fn new<A: Arithmetic>(config: WalkerConfig, arithmetic: &A) -> (walker: Self)
        requires
            has_room(segments(config.morphology.root)),
        ensures
            walker.wf(),
            walker.config == config,
            forall|m: Operations| #[trigger] m.describes(*arithmetic) ==> walker.weighs(m),
    {
        let ghost root = config.morphology.root;
        let ghost v = visits(root, 0, None, 0);
        let ghost n = segments(root) as int;
        proof {
            lemma_visits_count(root, 0, None, 0);
            lemma_visits_hang(root, 0, None, 0);
            assert(n >= 1);
            assert((n + 1) * (3 * n) >= 3 * n + 3) by (nonlinear_arith)
                requires
                    n >= 1,
            ;
            assert((n + 1) * (2 * n) <= (n + 1) * (3 * n)) by (nonlinear_arith)
                requires
                    n >= 1,
            ;
            assert((n + 1) * (3 * (n - 1)) <= (n + 1) * (3 * n)) by (nonlinear_arith)
                requires
                    n >= 1,
            ;
        }
        let layout = lay_edges(&config.morphology.root);
        let edges = edges_of(&layout, Ghost(v));
        let joints = joints_of(&layout, Ghost(v));
        let n_particles = layout.starts.len() + 1;
        let edge_columns = edge_columns_of(&edges.pairs);
        let edge_map_combined = incidence(n_particles, &edge_columns, edges.pairs.len());
        let joint_columns = joint_columns_of(&joints.pairs);
        let joint_map_combined = incidence(n_particles, &joint_columns, joint_columns.len());
        let mut mass_shares: Vec<Vec<Single>> = Vec::new();
        let mut k: usize = 0;
        while k < n_particles
            invariant
                layout.lays(v),
                v.len() < usize::MAX,
                k <= n_particles,
                mass_shares@.len() == k,
                forall|i: int|
                    0 <= i < k ==> (#[trigger] mass_shares@[i])@ == shares_at(
                        v,
                        v.len() as int,
                        i,
                    ),
            decreases n_particles - k,
        {
            mass_shares.push(shares_of(&layout, k, Ghost(v)));
            k = k + 1;
        }
        proof {
            assert forall|i: int| 0 <= i < v.len() implies layout.edge_is(i, v[i]) by {}
            assert forall|i: int|
                #![trigger edges.idx_1@[i]]
                #![trigger edges.idx_2@[i]]
                0 <= i < v.len() implies 0 <= edges.idx_1@[i] < n_particles && 0
                <= edges.idx_2@[i] < n_particles by {
                if i > 0 {
                    assert(hangs_on_earlier(v, 0, i));
                }
                assert(edges.pairs@[i].0 == v[i].start);
            }
            assert forall|j: int|
                #![trigger joints.idx_p@[j]]
                #![trigger joints.idx_j@[j]]
                #![trigger joints.idx_c@[j]]
                0 <= j < joints.pairs@.len() implies 0 <= joints.idx_p@[j] < n_particles && 0
                <= joints.idx_j@[j] < n_particles && 0 <= joints.idx_c@[j] < n_particles by {
                assert(hangs_on_earlier(v, 0, j + 1));
                let parent = parent_edge(v, j + 1);
                if parent > 0 {
                    assert(hangs_on_earlier(v, 0, parent));
                }
                assert(joints.pairs@[j].0 == v[parent].start);
            }
        }
        let (masses, inv_masses) = weigh(arithmetic, &mass_shares);
        let edge_w1 = picked_weights(&inv_masses, &edges.idx_1);
        let edge_w2 = picked_weights(&inv_masses, &edges.idx_2);
        let edge_w_sum = floored_lanes(
            &sums(arithmetic, &edge_w1, &edge_w2),
            Single { bits: ONE_MILLIONTH },
        );
        let joint_w_p = picked_weights(&inv_masses, &joints.idx_p);
        let joint_w_j = picked_weights(&inv_masses, &joints.idx_j);
        let joint_w_c = picked_weights(&inv_masses, &joints.idx_c);
        let walker = Walker {
            config,
            edges: edges.pairs,
            joint_pairs: joints.pairs,
            edge_idx_1: edges.idx_1,
            edge_idx_2: edges.idx_2,
            edge_lengths: edges.lengths,
            edge_map_combined,
            joint_map_combined,
            joint_idx_p: joints.idx_p,
            joint_idx_j: joints.idx_j,
            joint_idx_c: joints.idx_c,
            joint_angle_min: joints.angle_min,
            joint_angle_max: joints.angle_max,
            joint_parent_lengths: joints.parent_lengths,
            joint_child_lengths: joints.child_lengths,
            joint_max_torques: joints.max_torques,
            mass_shares,
            masses,
            inv_masses,
            edge_w1,
            edge_w2,
            edge_w_sum,
            joint_w_p,
            joint_w_j,
            joint_w_c,
            n_particles,
            init_p1: layout.starts,
            init_p2: edges.ends,
            init_lengths: layout.lengths,
            init_angle_min: layout.angle_min,
            init_angle_max: layout.angle_max,
            init_parent_edge: layout.parents,
            init_eff_min: edges.eff_min,
            init_eff_max: edges.eff_max,
        };
        proof {
            assert(walker.has_edges(v));
            assert(walker.init_p1@ =~= Seq::new(v.len(), |i: int| walker.edges@[i].0));
            assert(walker.init_lengths@ =~= Seq::new(v.len(), |i: int| v[i].segment.length));
            assert(walker.init_angle_min@ =~= Seq::new(v.len(), |i: int| v[i].segment.angle_min));
            assert(walker.init_angle_max@ =~= Seq::new(v.len(), |i: int| v[i].segment.angle_max));
            assert(walker.has_start(v));
            assert(walker.has_joints(v));
            assert(walker.edge_columns() =~= edge_columns@);
            assert(walker.joint_columns() =~= joint_columns@);
            assert(walker.has_maps());
            assert(walker.has_shares(v));
            assert(walker.has_weights());
            assert forall|m: Operations| #[trigger] m.describes(*arithmetic) implies walker.weighs(
                m,
            ) by {
                assert(walker.edge_w_sum@ =~= floors(
                    m.sums(walker.edge_w1@, walker.edge_w2@),
                    Single::of(ONE_MILLIONTH),
                ));
            }
        }
        walker
    }

    /// The number of torques that drive the walker, one for each joint.
    pub fn action_dim(&self) -> (r: usize)
        ensures
            r == self.joint_pairs@.len(),
            self.wf() ==> r == segments(self.config.morphology.root) - 1,
    {
        proof {
            lemma_visits_count(self.config.morphology.root, 0, None, 0);
        }
        self.joint_pairs.len()
    }
}

/// The indices of the edges and joints name particles.
pub proof fn law_indices_name_particles(walker: Walker)
    requires
        walker.wf(),
    ensures
        walker.edge_idx_1@.len() == walker.edges@.len(),
        walker.edge_idx_2@.len() == walker.edges@.len(),
        walker.joint_idx_p@.len() == walker.joint_pairs@.len(),
        walker.joint_idx_j@.len() == walker.joint_pairs@.len(),
        walker.joint_idx_c@.len() == walker.joint_pairs@.len(),
        forall|i: int|
            0 <= i < walker.edges@.len() ==> 0 <= #[trigger] walker.edge_idx_1@[i]
                < walker.n_particles,
        forall|i: int|
            0 <= i < walker.edges@.len() ==> 0 <= #[trigger] walker.edge_idx_2@[i]
                < walker.n_particles,
        forall|j: int|
            0 <= j < walker.joint_pairs@.len() ==> 0 <= #[trigger] walker.joint_idx_p@[j]
                < walker.n_particles,
        forall|j: int|
            0 <= j < walker.joint_pairs@.len() ==> 0 <= #[trigger] walker.joint_idx_j@[j]
                < walker.n_particles,
        forall|j: int|
            0 <= j < walker.joint_pairs@.len() ==> 0 <= #[trigger] walker.joint_idx_c@[j]
                < walker.n_particles,
{
    assert forall|i: int| 0 <= i < walker.edges@.len() implies 0 <= #[trigger] walker.edge_idx_1@[i]
        < walker.n_particles by {
        law_edges_reach_every_particle_once(walker, i + 1);
    }
    assert forall|i: int| 0 <= i < walker.edges@.len() implies 0 <= #[trigger] walker.edge_idx_2@[i]
        < walker.n_particles by {
        law_edges_reach_every_particle_once(walker, i + 1);
    }
    assert forall|j: int| 0 <= j < walker.joint_pairs@.len() implies 0
        <= #[trigger] walker.joint_idx_p@[j] < walker.n_particles by {
        law_joints_lie_between_edges(walker, j);
    }
    assert forall|j: int| 0 <= j < walker.joint_pairs@.len() implies 0
        <= #[trigger] walker.joint_idx_j@[j] < walker.n_particles by {
        law_joints_lie_between_edges(walker, j);
    }
    assert forall|j: int| 0 <= j < walker.joint_pairs@.len() implies 0
        <= #[trigger] walker.joint_idx_c@[j] < walker.n_particles by {
        law_joints_lie_between_edges(walker, j);
    }
}

/// Every edge runs from an earlier particle to a later one, and every particle but the first is the
/// end of exactly one edge.
pub proof fn law_edges_reach_every_particle_once(walker: Walker, particle: int)
    requires
        walker.wf(),
        0 < particle < walker.n_particles,
    ensures
        walker.n_particles == walker.edges@.len() + 1,
        walker.edges@[particle - 1].1 == particle,
        walker.edges@[particle - 1].0 < particle,
        forall|i: int|
            0 <= i < walker.edges@.len() && (#[trigger] walker.edges@[i]).1 == particle ==> i
                == particle - 1,
{
    let root = walker.config.morphology.root;
    lemma_visits_hang(root, 0, None, 0);
    if particle > 1 {
        assert(hangs_on_earlier(walker.order(), 0, particle - 1));
    }
}

/// The first edge alone has no parent; every other one starts where its parent, an earlier edge,
/// ends.
pub proof fn law_edges_start_where_their_parents_end(walker: Walker, edge: int)
    requires
        walker.wf(),
        0 <= edge < walker.edges@.len(),
    ensures
        walker.init_parent_edge@[edge] is None <==> edge == 0,
        edge == 0 ==> walker.edges@[edge].0 == 0,
        walker.init_parent_edge@[edge] matches Some(parent) ==> {
            &&& parent < edge
            &&& walker.edges@[parent as int].1 == walker.edges@[edge].0
        },
{
    let root = walker.config.morphology.root;
    lemma_visits_hang(root, 0, None, 0);
    assert(widened(walker.init_parent_edge@[edge]) == walker.order()[edge].parent);
    if edge > 0 {
        assert(hangs_on_earlier(walker.order(), 0, edge));
    }
}

/// A joint lies between two edges: its first two particles are an edge, and so are its last two.
pub proof fn law_joints_lie_between_edges(walker: Walker, joint: int)
    requires
        walker.wf(),
        0 <= joint < walker.joint_pairs@.len(),
    ensures
        walker.joint_pairs@.len() == walker.edges@.len() - 1,
        ({
            let (p, j, c) = walker.joint_pairs@[joint];
            &&& walker.init_parent_edge@[joint + 1] is Some
            &&& walker.edges@[walker.init_parent_edge@[joint + 1]->0 as int].0 == p
            &&& walker.edges@[walker.init_parent_edge@[joint + 1]->0 as int].1 == j
            &&& walker.edges@[joint + 1].0 == j
            &&& walker.edges@[joint + 1].1 == c
            &&& p < j < c < walker.n_particles
        }),
{
    let root = walker.config.morphology.root;
    let v = walker.order();
    lemma_visits_hang(root, 0, None, 0);
    assert(widened(walker.init_parent_edge@[joint + 1]) == v[joint + 1].parent);
    assert(hangs_on_earlier(v, 0, joint + 1));
    let parent = parent_edge(v, joint + 1);
    assert(walker.edges@[parent].0 == v[parent].start);
    if parent > 0 {
        assert(hangs_on_earlier(v, 0, parent));
    }
}

/// The number of masses shared out among the first `particles` particles.
pub open spec fn shares_given(v: Seq<Visit>, count: int, particles: int) -> int
    decreases particles,
{
    if particles <= 0 {
        0
    } else {
        shares_given(v, count, particles - 1) + shares_at(v, count, particles - 1).len()
    }
}

/// Every segment gives a share of its mass to two particles, those of its edge.
pub proof fn law_every_segment_gives_two_shares(walker: Walker)
    requires
        walker.wf(),
    ensures
        shares_given(walker.order(), walker.edges@.len() as int, walker.n_particles as int) == 2
            * walker.edges@.len(),
{
    let v = walker.order();
    lemma_visits_hang(walker.config.morphology.root, 0, None, 0);
    lemma_shares_given(v, v.len() as int, walker.n_particles as int);
}

proof fn lemma_shares_given(v: Seq<Visit>, count: int, particles: int)
    requires
        hangs(v),
        0 <= count <= v.len(),
        particles > count,
    ensures
        shares_given(v, count, particles) == 2 * count,
    decreases count,
{
    if count == 0 {
        lemma_no_shares_given(v, particles);
    } else {
        lemma_shares_given(v, count - 1, particles);
        if count > 1 {
            assert(hangs_on_earlier(v, 0, count - 1));
        }
        lemma_last_shares_given(v, count, particles);
    }
}

proof fn lemma_no_shares_given(v: Seq<Visit>, particles: int)
    ensures
        shares_given(v, 0, particles) == 0,
    decreases particles,
{
    if particles > 0 {
        lemma_no_shares_given(v, particles - 1);
    }
}

proof fn lemma_last_shares_given(v: Seq<Visit>, count: int, particles: int)
    requires
        0 < count <= v.len(),
        0 <= v[count - 1].start < count,
        particles >= 0,
    ensures
        shares_given(v, count, particles) == shares_given(v, count - 1, particles) + (
        if v[count - 1].start < particles {
            1int
        } else {
            0
        }) + (if count < particles {
            1int
        } else {
            0
        }),
    decreases particles,
{
    if particles > 0 {
        lemma_last_shares_given(v, count, particles - 1);
    }
}

/// No step that leads to the mass of a particle is rounded.
pub open spec fn halves_exactly(m: Operations, shares: Seq<Single>) -> bool
    decreases shares.len(),
{
    shares.len() > 0 ==> {
        let half = (m.product)(shares.last(), Single::of(PLUS_0_5));
        &&& halves_exactly(m, shares.drop_last())
        &&& product_is_exact(m, shares.last(), Single::of(PLUS_0_5))
        &&& sum_is_exact(m, m.mass(shares.drop_last()), half)
    }
}

proof fn lemma_masses_are_halves(m: Operations, shares: Seq<Single>)
    requires
        halves_exactly(m, shares),
    ensures
        2 * m.mass(shares).value() == values_total(shares),
    decreases shares.len(),
{
    lemma_whole_numbers();
    if shares.len() > 0 {
        lemma_masses_are_halves(m, shares.drop_last());
        let half = (m.product)(shares.last(), Single::of(PLUS_0_5));
        let (h, x, c, u) = (
            half.value(),
            shares.last().value(),
            Single::of(PLUS_0_5).value(),
            unit(),
        );
        assert((2 * h) * u == x * u) by (nonlinear_arith)
            requires
                h * u == x * c,
                2 * c == u,
        ;
        lemma_cancel(2 * h, x, u);
    }
}

/// The masses of the segments of the first `count` edges that start or end in particle `k`, together.
pub open spec fn touching(walker: Walker, k: int, count: int) -> int
    decreases count,
{
    if count <= 0 {
        0
    } else {
        touching(walker, k, count - 1) + if walker.edges@[count - 1].0 == k
            || walker.edges@[count - 1].1 == k {
            walker.order()[count - 1].segment.mass.value()
        } else {
            0
        }
    }
}

proof fn lemma_touching(walker: Walker, k: int, count: int)
    requires
        walker.wf(),
        0 <= count <= walker.edges@.len(),
    ensures
        values_total(shares_at(walker.order(), count, k)) == touching(walker, k, count),
    decreases count,
{
    if count > 0 {
        lemma_touching(walker, k, count - 1);
        let v = walker.order();
        let edge = walker.edges@[count - 1];
        assert(edge.0 == v[count - 1].start);
        assert(edge.1 == count);
        let before = shares_at(v, count - 1, k);
        let mass = v[count - 1].segment.mass;
        assert(before.push(mass).drop_last() =~= before);
    }
}

/// Where nothing is rounded, a particle has half the mass of each segment that starts or ends in it; its
/// inverse mass is one by that, and nothing where it has none; and the weights of the ends of an edge
/// together are no less than a millionth.
pub proof fn law_particles_have_half_of_their_segments(
    walker: Walker,
    m: Operations,
    k: int,
)
    requires
        walker.wf(),
        walker.weighs(m),
        0 <= k < walker.n_particles,
        halves_exactly(m, walker.mass_shares@[k]@),
        !walker.masses@[k].nan(),
        quotient_is_exact(m, Single::of(ONE), walker.masses@[k]),
    ensures
        2 * walker.masses@[k].value() == touching(walker, k, walker.edges@.len() as int),
        walker.masses@[k].value() > 0 ==> walker.inv_masses@[k].value() * walker.masses@[k].value()
            == unit() * unit(),
        walker.masses@[k].value() <= 0 ==> walker.inv_masses@[k].value() == 0,
{
    lemma_masses_are_halves(m, walker.mass_shares@[k]@);
    lemma_touching(walker, k, walker.edges@.len() as int);
    assert(walker.masses@[k] == m.mass(walker.mass_shares@[k]@));
    assert(Single::of(ZERO).value() == 0);
}

/// The weights of an edge are the inverse masses of its two particles, and their sum is no less than a
/// millionth, where nothing is rounded.
pub proof fn law_edges_weigh_by_their_ends(walker: Walker, m: Operations, e: int)
    requires
        walker.wf(),
        walker.weighs(m),
        0 <= e < walker.edges@.len(),
        sum_is_exact(m, walker.edge_w1@[e], walker.edge_w2@[e]),
        !(m.sum)(walker.edge_w1@[e], walker.edge_w2@[e]).nan(),
    ensures
        ({
            let (s, t) = (walker.edges@[e].0 as int, walker.edges@[e].1 as int);
            let both = walker.inv_masses@[s].value() + walker.inv_masses@[t].value();
            let least = Single::of(ONE_MILLIONTH).value();
            walker.edge_w_sum@[e].value() == if both < least {
                least
            } else {
                both
            }
        }),
{
    law_indices_name_particles(walker);
    law_edges_reach_every_particle_once(walker, e + 1);
    assert(walker.edge_idx_1@[e] == walker.edges@[e].0);
    assert(walker.edge_idx_2@[e] == walker.edges@[e].1);
}

/// The masses of the first `count` segments together.
pub open spec fn segments_weigh(v: Seq<Visit>, count: int) -> int
    decreases count,
{
    if count <= 0 {
        0
    } else {
        segments_weigh(v, count - 1) + v[count - 1].segment.mass.value()
    }
}

/// The masses shared out among the first `particles` particles together.
spec fn masses_given(v: Seq<Visit>, count: int, particles: int) -> int
    decreases particles,
{
    if particles <= 0 {
        0
    } else {
        masses_given(v, count, particles - 1) + values_total(shares_at(v, count, particles - 1))
    }
}

proof fn lemma_last_mass_given(v: Seq<Visit>, count: int, particles: int)
    requires
        0 < count <= v.len(),
        0 <= v[count - 1].start < count,
        particles >= 0,
    ensures
        masses_given(v, count, particles) == masses_given(v, count - 1, particles) + (
        if v[count - 1].start < particles {
            v[count - 1].segment.mass.value()
        } else {
            0
        }) + (if count < particles {
            v[count - 1].segment.mass.value()
        } else {
            0
        }),
    decreases particles,
{
    if particles > 0 {
        lemma_last_mass_given(v, count, particles - 1);
        let before = shares_at(v, count - 1, particles - 1);
        assert(before.push(v[count - 1].segment.mass).drop_last() =~= before);
    }
}

proof fn lemma_no_mass_given(v: Seq<Visit>, particles: int)
    ensures
        masses_given(v, 0, particles) == 0,
    decreases particles,
{
    if particles > 0 {
        lemma_no_mass_given(v, particles - 1);
    }
}

proof fn lemma_masses_given(v: Seq<Visit>, count: int, particles: int)
    requires
        hangs(v),
        0 <= count <= v.len(),
        particles > count,
    ensures
        masses_given(v, count, particles) == 2 * segments_weigh(v, count),
    decreases count,
{
    if count == 0 {
        lemma_no_mass_given(v, particles);
    } else {
        lemma_masses_given(v, count - 1, particles);
        if count > 1 {
            assert(hangs_on_earlier(v, 0, count - 1));
        }
        lemma_last_mass_given(v, count, particles);
    }
}

/// No mass is lost and none is added: where nothing is rounded, the particles weigh as much as the segments.
pub proof fn law_particles_weigh_as_much_as_segments(walker: Walker, m: Operations)
    requires
        walker.wf(),
        walker.weighs(m),
        forall|k: int|
            0 <= k < walker.n_particles ==> halves_exactly(m, (#[trigger] walker.mass_shares@[k])@),
    ensures
        values_total(walker.masses@) == segments_weigh(
            walker.order(),
            walker.edges@.len() as int,
        ),
{
    let v = walker.order();
    lemma_visits_hang(walker.config.morphology.root, 0, None, 0);
    lemma_masses_given(v, v.len() as int, walker.n_particles as int);
    lemma_masses_total(walker, m, walker.n_particles as int);
    assert(walker.masses@.take(walker.n_particles as int) =~= walker.masses@);
}

proof fn lemma_masses_total(walker: Walker, m: Operations, particles: int)
    requires
        walker.wf(),
        walker.weighs(m),
        0 <= particles <= walker.n_particles,
        forall|k: int|
            0 <= k < walker.n_particles ==> halves_exactly(m, (#[trigger] walker.mass_shares@[k])@),
    ensures
        2 * values_total(walker.masses@.take(particles)) == masses_given(
            walker.order(),
            walker.edges@.len() as int,
            particles,
        ),
    decreases particles,
{
    if particles > 0 {
        let k = particles - 1;
        lemma_masses_total(walker, m, k);
        assert(walker.masses@.take(particles).drop_last() =~= walker.masses@.take(k));
        lemma_masses_are_halves(m, walker.mass_shares@[k]@);
        assert(walker.masses@[k] == m.mass(walker.mass_shares@[k]@));
    }
}

/// What is kept of a joint is what is kept of the two edges that it joins: the lengths of both, and the
/// range, the torque and the weights of the one that hangs on the other. The first edge starts turned by at
/// most 0.8, and every other one anywhere in its range.
pub proof fn law_joints_take_after_their_edges(walker: Walker, joint: int)
    requires
        walker.wf(),
        0 <= joint < walker.joint_pairs@.len(),
    ensures
        ({
            let (child, parent) = (joint + 1, walker.init_parent_edge@[joint + 1]->0 as int);
            let segment = walker.order()[child].segment;
            let (p, j, c) = walker.joint_pairs@[joint];
            &&& walker.joint_parent_lengths@[joint] == walker.edges@[parent].2
            &&& walker.joint_child_lengths@[joint] == walker.edges@[child].2
            &&& walker.edge_lengths@[child] == walker.edges@[child].2
            &&& walker.init_lengths@[child] == walker.edges@[child].2
            &&& walker.edges@[child].2 == segment.length
            &&& walker.joint_angle_min@[joint] == segment.angle_min
            &&& walker.joint_angle_max@[joint] == segment.angle_max
            &&& walker.joint_max_torques@[joint] == segment.max_torque
            &&& walker.init_eff_min@[child] == segment.angle_min
            &&& walker.init_eff_max@[child] == segment.angle_max
            &&& walker.init_angle_min@[child] == segment.angle_min
            &&& walker.init_angle_max@[child] == segment.angle_max
            &&& walker.joint_w_p@[joint] == walker.inv_masses@[p as int]
            &&& walker.joint_w_j@[joint] == walker.inv_masses@[j as int]
            &&& walker.joint_w_c@[joint] == walker.inv_masses@[c as int]
        }),
        walker.init_eff_min@[0].bits == MINUS_0_8,
        walker.init_eff_max@[0].value() == 0,
        walker.edges@[0].2 == walker.config.morphology.root.length,
        walker.init_lengths@[0] == walker.config.morphology.root.length,
        walker.edge_lengths@[0] == walker.config.morphology.root.length,
{
    let root = walker.config.morphology.root;
    let v = walker.order();
    lemma_visits_hang(root, 0, None, 0);
    law_joints_lie_between_edges(walker, joint);
    law_indices_name_particles(walker);
    assert(hangs_on_earlier(v, 0, joint + 1));
    assert(widened(walker.init_parent_edge@[joint + 1]) == v[joint + 1].parent);
    let parent = parent_edge(v, joint + 1);
    assert(walker.edges@[parent].2 == v[parent].segment.length);
    assert(walker.edges@[joint + 1].2 == v[joint + 1].segment.length);
    assert(walker.edges@[0].2 == v[0].segment.length);
    let (p, j, c) = walker.joint_pairs@[joint];
    assert(walker.joint_idx_p@[joint] == p);
    assert(walker.joint_idx_j@[joint] == j);
    assert(walker.joint_idx_c@[joint] == c);
    assert(Single::of(ZERO).value() == 0);
}

} // verus!
