//! Laying the edges of a body, one per segment.

use crate::physics::Segment;
use crate::single::Single;
use crate::traversal::{
    lemma_due_with_children, lemma_visits_count, segments, visits, visits_due, visits_of,
    with_children, Visit,
};
use vstd::prelude::*;

verus! {

/// What the edges of a body are made of, edge by edge.
pub struct Layout {
    /// The particle that the edge starts from; edge `i` ends in particle `i + 1`.
    pub starts: Vec<usize>,
    /// The edge on whose end this one hangs, if any.
    pub parents: Vec<Option<usize>>,
    pub lengths: Vec<Single>,
    pub masses: Vec<Single>,
    pub angle_min: Vec<Single>,
    pub angle_max: Vec<Single>,
    pub max_torques: Vec<Single>,
}

/// The same index, unbounded.
pub open spec fn widened(index: Option<usize>) -> Option<int> {
    match index {
        Some(i) => Some(i as int),
        None => None,
    }
}

/// The bodies that a stack of pending segments stands for.
spec fn pending(stack: Seq<(&Segment, usize, Option<usize>)>) -> Seq<Visit> {
    Seq::new(
        stack.len(),
        |i: int| Visit { segment: *stack[i].0, start: stack[i].1 as int, parent: widened(stack[i].2) },
    )
}

impl Layout {
    /// Edge `i` is laid for the visit `visit`.
    pub open spec fn edge_is(&self, i: int, visit: Visit) -> bool {
        &&& self.starts@[i] == visit.start
        &&& widened(self.parents@[i]) == visit.parent
        &&& self.lengths@[i] == visit.segment.length
        &&& self.masses@[i] == visit.segment.mass
        &&& self.angle_min@[i] == visit.segment.angle_min
        &&& self.angle_max@[i] == visit.segment.angle_max
        &&& self.max_torques@[i] == visit.segment.max_torque
    }

    /// One edge is laid for each of the visits, in their order.
    pub open spec fn lays(&self, visits: Seq<Visit>) -> bool {
        &&& self.starts@.len() == visits.len()
        &&& self.parents@.len() == visits.len()
        &&& self.lengths@.len() == visits.len()
        &&& self.masses@.len() == visits.len()
        &&& self.angle_min@.len() == visits.len()
        &&& self.angle_max@.len() == visits.len()
        &&& self.max_torques@.len() == visits.len()
        &&& forall|i: int| 0 <= i < visits.len() ==> self.edge_is(i, #[trigger] visits[i])
    }

    /// Lays the edge of `segment`, which starts from the particle `start`.
    fn lay(
        &mut self,
        segment: &Segment,
        start: usize,
        parent: Option<usize>,
        Ghost(done): Ghost<Seq<Visit>>,
    )
        requires
            old(self).lays(done),
        ensures
            final(self).lays(
                done.push(Visit { segment: *segment, start: start as int, parent: widened(parent) }),
            ),
    {
        self.starts.push(start);
        self.parents.push(parent);
        self.lengths.push(segment.length);
        self.masses.push(segment.mass);
        self.angle_min.push(segment.angle_min);
        self.angle_max.push(segment.angle_max);
        self.max_torques.push(segment.max_torque);
        let ghost visit = Visit { segment: *segment, start: start as int, parent: widened(parent) };
        assert forall|i: int| 0 <= i < done.push(visit).len() implies self.edge_is(
            i,
            #[trigger] done.push(visit)[i],
        ) by {
            if i < done.len() {
                assert(old(self).edge_is(i, done[i]));
            }
        }
    }
}

/// Lays the edges of a body from its root.
pub fn lay_edges(root: &Segment) -> (layout: Layout)
    requires
        segments(*root) <= usize::MAX,
    ensures
        layout.lays(visits(*root, 0, None, 0)),
{
    let mut layout = Layout {
        starts: Vec::new(),
        parents: Vec::new(),
        lengths: Vec::new(),
        masses: Vec::new(),
        angle_min: Vec::new(),
        angle_max: Vec::new(),
        max_torques: Vec::new(),
    };
    let mut stack: Vec<(&Segment, usize, Option<usize>)> = Vec::new();
    stack.push((root, 0, None));
    let ghost all = visits(*root, 0, None, 0);
    let ghost mut done: Seq<Visit> = Seq::empty();
    proof {
        lemma_visits_count(*root, 0, None, 0);
        let first = pending(stack@);
        assert(first.drop_last() =~= Seq::empty());
        assert(visits_due(first.drop_last(), all.len() as int) =~= Seq::empty());
        assert(first.last() == Visit { segment: *root, start: 0, parent: None });
        assert(done + visits_due(first, 0) =~= all);
    }
    while stack.len() > 0
        invariant
            all.len() <= usize::MAX,
            layout.lays(done),
            done + visits_due(pending(stack@), done.len() as int) == all,
        decreases all.len() - done.len(),
    {
        let ghost before = pending(stack@);
        let (segment, start, parent) = stack.pop().unwrap();
        let ghost rest = pending(stack@);
        let ghost visit = Visit { segment: *segment, start: start as int, parent: widened(parent) };
        let ghost edge = done.len() as int;
        proof {
            assert(before.drop_last() =~= rest);
            assert(before.last() == visit);
            let own = visits(*segment, visit.start, visit.parent, edge);
            assert(visits_due(before, edge) =~= own + visits_due(rest, edge + own.len()));
            assert(all.len() == done.len() + visits_due(before, edge).len());
        }
        let current_edge = layout.starts.len();
        layout.lay(segment, start, parent, Ghost(done));
        let end = current_edge + 1;
        let mut next: usize = 0;
        proof {
            assert(with_children(rest, segment.children@, 0, edge) =~= rest);
        }
        while next < segment.children.len()
            invariant
                next <= segment.children@.len(),
                current_edge == edge,
                end == edge + 1,
                pending(stack@) == with_children(rest, segment.children@, next as nat, edge),
            decreases segment.children@.len() - next,
        {
            let ghost so_far = pending(stack@);
            let ghost child = Visit {
                segment: segment.children@[next as int],
                start: edge + 1,
                parent: Some(edge),
            };
            stack.push((&segment.children[next], end, Some(current_edge)));
            proof {
                assert(pending(stack@) =~= so_far.push(child));
                assert(with_children(rest, segment.children@, (next + 1) as nat, edge)
                    =~= so_far.push(child));
            }
            next = next + 1;
        }
        proof {
            let children = segment.children@;
            let below = visits_of(children, children.len(), edge, edge + 1);
            let own = visits(*segment, visit.start, visit.parent, edge);
            lemma_due_with_children(rest, children, children.len(), edge, edge + 1);
            assert(own =~= seq![visit] + below);
            assert(all == done + (own + visits_due(rest, edge + own.len())));
            done = done.push(visit);
            assert(all =~= done + visits_due(pending(stack@), done.len() as int));
        }
    }
    proof {
        assert(pending(stack@) =~= Seq::empty());
        assert(done =~= all);
    }
    layout
}

} // verus!
