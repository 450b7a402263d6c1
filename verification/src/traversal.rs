//! The order in which the segments of a body are visited.
//!
//! The visit at position `i` lays edge `i`, which ends in particle `i + 1`. A segment is visited
//! before its children, the children from the last to the first, each with all its descendants.

use crate::physics::Segment;
use vstd::prelude::*;

verus! {

/// A segment in the order of visits: the particle that it starts from and the edge of its parent.
pub struct Visit {
    pub segment: Segment,
    pub start: int,
    pub parent: Option<int>,
}

/// The number of segments of a body.
pub open spec fn segments(segment: Segment) -> nat
    decreases segment, 0nat,
{
    1 + segments_of(segment.children@, segment.children@.len())
}

/// The number of segments of the first `count` of these bodies.
pub open spec fn segments_of(children: Seq<Segment>, count: nat) -> nat
    decreases children, count,
{
    if count == 0 || count > children.len() {
        0
    } else {
        segments(children[count - 1]) + segments_of(children, (count - 1) as nat)
    }
}

/// The visits of a body whose own segment starts from the particle `start`, when `index` edges
/// are laid already.
pub open spec fn visits(segment: Segment, start: int, parent: Option<int>, index: int) -> Seq<Visit>
    decreases segment, 0nat,
{
    seq![Visit { segment, start, parent }] + visits_of(
        segment.children@,
        segment.children@.len(),
        index,
        index + 1,
    )
}

/// The visits of the first `count` of these bodies, from the last to the first, all of them hung
/// on the end of edge `parent`, when `index` edges are laid already.
pub open spec fn visits_of(
    children: Seq<Segment>,
    count: nat,
    parent: int,
    index: int,
) -> Seq<Visit>
    decreases children, count,
{
    if count == 0 || count > children.len() {
        Seq::empty()
    } else {
        let last = visits(children[count - 1], parent + 1, Some(parent), index);
        last + visits_of(children, (count - 1) as nat, parent, index + last.len())
    }
}

/// The visits still due for a stack of bodies whose top is its last element.
pub open spec fn visits_due(stack: Seq<Visit>, index: int) -> Seq<Visit>
    decreases stack.len(),
{
    if stack.len() == 0 {
        Seq::empty()
    } else {
        let top = stack.last();
        let first = visits(top.segment, top.start, top.parent, index);
        first + visits_due(stack.drop_last(), index + first.len())
    }
}

/// Every segment is visited once.
pub proof fn lemma_visits_count(segment: Segment, start: int, parent: Option<int>, index: int)
    ensures
        visits(segment, start, parent, index).len() == segments(segment),
    decreases segment, 0nat,
{
    lemma_visits_of_count(segment.children@, segment.children@.len(), index, index + 1);
}

proof fn lemma_visits_of_count(children: Seq<Segment>, count: nat, parent: int, index: int)
    ensures
        visits_of(children, count, parent, index).len() == segments_of(children, count),
    decreases children, count,
{
    if count == 0 || count > children.len() {
    } else {
        let last = visits(children[count - 1], parent + 1, Some(parent), index);
        lemma_visits_count(children[count - 1], parent + 1, Some(parent), index);
        lemma_visits_of_count(children, (count - 1) as nat, parent, index + last.len());
    }
}

/// The stack after the first `count` children of edge `parent` were put on it.
pub open spec fn with_children(
    stack: Seq<Visit>,
    children: Seq<Segment>,
    count: nat,
    parent: int,
) -> Seq<Visit>
{
    stack + Seq::new(
        count,
        |i: int| Visit { segment: children[i], start: parent + 1, parent: Some(parent) },
    )
}

/// What is due once the children of a segment are on the stack: the children from the last to
/// the first, then what was due before.
pub proof fn lemma_due_with_children(
    stack: Seq<Visit>,
    children: Seq<Segment>,
    count: nat,
    parent: int,
    index: int,
)
    requires
        count <= children.len(),
    ensures
        visits_due(with_children(stack, children, count, parent), index) == visits_of(
            children,
            count,
            parent,
            index,
        ) + visits_due(stack, index + visits_of(children, count, parent, index).len()),
    decreases count,
{
    let whole = with_children(stack, children, count, parent);
    if count == 0 {
        assert(whole =~= stack);
        assert(visits_due(whole, index) =~= visits_of(children, count, parent, index) + visits_due(
            stack,
            index + visits_of(children, count, parent, index).len(),
        ));
    } else {
        let less = (count - 1) as nat;
        let last = visits(children[count - 1], parent + 1, Some(parent), index);
        let rest = visits_of(children, less, parent, index + last.len());
        assert(whole.drop_last() =~= with_children(stack, children, less, parent));
        assert(whole.last() == Visit {
            segment: children[count - 1],
            start: parent + 1,
            parent: Some(parent),
        });
        lemma_due_with_children(stack, children, less, parent, index + last.len());
        assert(visits_due(whole, index) =~= (last + rest) + visits_due(
            stack,
            index + (last + rest).len(),
        ));
    }
}

/// In the order of visits, when `index` edges were laid before: the visit at `i` hangs on the end
/// of an edge laid before it.
pub open spec fn hangs_on_earlier(visits: Seq<Visit>, index: int, i: int) -> bool {
    &&& visits[i].parent is Some
    &&& index <= visits[i].parent->0 < index + i
    &&& visits[i].start == visits[i].parent->0 + 1
}

/// The first visit is that of the body itself; every other one hangs on the end of an edge laid
/// before it.
pub proof fn lemma_visits_hang(segment: Segment, start: int, parent: Option<int>, index: int)
    ensures
        ({
            let v = visits(segment, start, parent, index);
            &&& v.len() > 0
            &&& v[0] == Visit { segment, start, parent }
            &&& forall|i: int| 0 < i < v.len() ==> hangs_on_earlier(v, index, i)
        }),
    decreases segment, 0nat,
{
    let v = visits(segment, start, parent, index);
    let below = visits_of(segment.children@, segment.children@.len(), index, index + 1);
    lemma_visits_of_hang(segment.children@, segment.children@.len(), index, index + 1);
    assert forall|i: int| 0 < i < v.len() implies hangs_on_earlier(v, index, i) by {
        assert(v[i] == below[i - 1]);
        assert(hangs_below(below, index, index + 1, i - 1));
    }
}

/// In the order of visits of bodies that hang on edge `parent`, when `index` edges were laid
/// before: the visit at `i` hangs on the end of that edge or of one laid since.
spec fn hangs_below(visits: Seq<Visit>, parent: int, index: int, i: int) -> bool {
    &&& visits[i].parent is Some
    &&& visits[i].parent->0 == parent || index <= visits[i].parent->0 < index + i
    &&& visits[i].start == visits[i].parent->0 + 1
}

proof fn lemma_visits_of_hang(children: Seq<Segment>, count: nat, parent: int, index: int)
    ensures
        ({
            let v = visits_of(children, count, parent, index);
            forall|i: int| 0 <= i < v.len() ==> hangs_below(v, parent, index, i)
        }),
    decreases children, count,
{
    let v = visits_of(children, count, parent, index);
    if count == 0 || count > children.len() {
    } else {
        let last = visits(children[count - 1], parent + 1, Some(parent), index);
        let rest = visits_of(children, (count - 1) as nat, parent, index + last.len());
        lemma_visits_hang(children[count - 1], parent + 1, Some(parent), index);
        lemma_visits_of_hang(children, (count - 1) as nat, parent, index + last.len());
        assert forall|i: int| 0 <= i < v.len() implies hangs_below(v, parent, index, i) by {
            if i < last.len() {
                assert(v[i] == last[i]);
                if i > 0 {
                    assert(hangs_on_earlier(last, index, i));
                }
            } else {
                assert(v[i] == rest[i - last.len()]);
                assert(hangs_below(rest, parent, index + last.len(), i - last.len()));
            }
        }
    }
}

} // verus!
