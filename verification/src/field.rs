//! Vectors of the plane, one to a particle, an edge or a joint, held by their two columns.

use crate::arithmetic::{
    differences, dot, products, quotients, sums, Arithmetic, Operations,
};
use crate::incidence::{cell, lemma_cell};
use crate::lanes::{copied, followed_by, negated_lanes, negatives};
use crate::motion::Point;
use crate::single::Single;
use vstd::prelude::*;

verus! {

/// The abscissas and the ordinates of vectors.
pub struct Field {
    pub x: Seq<Single>,
    pub y: Seq<Single>,
}

/// The abscissas and the ordinates of vectors, as lists.
pub struct Columns {
    pub x: Vec<Single>,
    pub y: Vec<Single>,
}

impl View for Columns {
    type V = Field;

    open spec fn view(&self) -> Field {
        Field { x: self.x@, y: self.y@ }
    }
}

/// The field of a row of points.
pub open spec fn field(points: Seq<Point>) -> Field {
    Field {
        x: Seq::new(points.len(), |k: int| points[k].x),
        y: Seq::new(points.len(), |k: int| points[k].y),
    }
}

impl Field {
    /// Both columns have this many entries.
    pub open spec fn has(self, count: nat) -> bool {
        self.x.len() == count && self.y.len() == count
    }

    /// The vectors turned by a right angle.
    pub open spec fn perpendicular(self) -> Field {
        Field { x: negatives(self.y), y: self.x }
    }

    /// The vectors turned around.
    pub open spec fn reversed(self) -> Field {
        Field { x: negatives(self.x), y: negatives(self.y) }
    }

    /// The vectors that the indices name.
    pub open spec fn selected(self, indices: Seq<i32>) -> Field {
        Field {
            x: Seq::new(indices.len(), |i: int| self.x[indices[i] as int]),
            y: Seq::new(indices.len(), |i: int| self.y[indices[i] as int]),
        }
    }

    /// The vectors, then those of `other`.
    pub open spec fn followed(self, other: Field) -> Field {
        Field { x: self.x + other.x, y: self.y + other.y }
    }
}

/// A row of a matrix that is held row by row.
pub open spec fn matrix_row(map: Seq<Single>, row: int, columns: nat) -> Seq<Single> {
    Seq::new(columns, |c: int| map[cell(row, c, columns as int)])
}

impl Operations {
    /// The sums of the vectors, pair by pair.
    pub open spec fn plus(self, a: Field, b: Field) -> Field {
        Field { x: self.sums(a.x, b.x), y: self.sums(a.y, b.y) }
    }

    /// The differences of the vectors, pair by pair.
    pub open spec fn minus(self, a: Field, b: Field) -> Field {
        Field { x: self.differences(a.x, b.x), y: self.differences(a.y, b.y) }
    }

    /// Each vector multiplied by its number.
    pub open spec fn scaled(self, a: Field, by: Seq<Single>) -> Field {
        Field { x: self.products(a.x, by), y: self.products(a.y, by) }
    }

    /// Each vector divided by its number.
    pub open spec fn shrunk(self, a: Field, by: Seq<Single>) -> Field {
        Field { x: self.quotients(a.x, by), y: self.quotients(a.y, by) }
    }

    /// The inner products of the vectors, pair by pair.
    pub open spec fn inner_products(self, a: Field, b: Field) -> Seq<Single> {
        self.sums(self.products(a.x, b.x), self.products(a.y, b.y))
    }

    /// The outer products of the vectors, pair by pair.
    pub open spec fn outer_products(self, a: Field, b: Field) -> Seq<Single> {
        self.differences(self.products(a.x, b.y), self.products(a.y, b.x))
    }

    /// What a matrix of `rows` rows makes of the vectors, one to a column.
    pub open spec fn spread(self, map: Seq<Single>, rows: nat, amounts: Field) -> Field {
        Field {
            x: Seq::new(
                rows,
                |r: int| (self.dot)(matrix_row(map, r, amounts.x.len()), amounts.x),
            ),
            y: Seq::new(
                rows,
                |r: int| (self.dot)(matrix_row(map, r, amounts.x.len()), amounts.y),
            ),
        }
    }
}

impl Columns {
    /// The columns of a row of points.
    pub fn of(points: &Vec<Point>) -> (r: Self)
        ensures
            r@.has(points@.len()),
            r@ == field(points@),
    {
        let mut x: Vec<Single> = Vec::new();
        let mut y: Vec<Single> = Vec::new();
        let mut k: usize = 0;
        while k < points.len()
            invariant
                k <= points@.len(),
                x@ =~= Seq::new(k as nat, |k: int| points@[k].x),
                y@ =~= Seq::new(k as nat, |k: int| points@[k].y),
            decreases points@.len() - k,
        {
            x.push(points[k].x);
            y.push(points[k].y);
            k = k + 1;
        }
        assert(x@ =~= field(points@).x);
        assert(y@ =~= field(points@).y);
        Columns { x, y }
    }

    /// The row of points with these columns.
    pub fn points(&self) -> (r: Vec<Point>)
        requires
            self@.has(self.x@.len()),
        ensures
            r@.len() == self.x@.len(),
            field(r@) == self@,
    {
        let mut r: Vec<Point> = Vec::new();
        let mut k: usize = 0;
        while k < self.x.len()
            invariant
                self@.has(self.x@.len()),
                k <= self.x@.len(),
                r@.len() == k,
                forall|i: int|
                    0 <= i < k ==> #[trigger] r@[i] == (Point { x: self.x@[i], y: self.y@[i] }),
            decreases self.x@.len() - k,
        {
            r.push(Point { x: self.x[k], y: self.y[k] });
            k = k + 1;
        }
        assert(field(r@).x =~= self.x@);
        assert(field(r@).y =~= self.y@);
        r
    }

    /// The vectors turned by a right angle.
    pub fn perpendicular(&self) -> (r: Self)
        ensures
            r@ == self@.perpendicular(),
    {
        Columns { x: negated_lanes(&self.y), y: copied(&self.x) }
    }

    /// The vectors turned around.
    pub fn reversed(&self) -> (r: Self)
        ensures
            r@ == self@.reversed(),
    {
        Columns { x: negated_lanes(&self.x), y: negated_lanes(&self.y) }
    }

    /// The vectors that the indices name.
    pub fn selected(&self, indices: &Vec<i32>) -> (r: Self)
        requires
            self@.has(self.x@.len()),
            forall|i: int| 0 <= i < indices@.len() ==> 0 <= #[trigger] indices@[i] < self.x@.len(),
        ensures
            r@.has(indices@.len()),
            r@ == self@.selected(indices@),
    {
        let mut x: Vec<Single> = Vec::new();
        let mut y: Vec<Single> = Vec::new();
        let mut i: usize = 0;
        while i < indices.len()
            invariant
                self@.has(self.x@.len()),
                forall|i: int|
                    0 <= i < indices@.len() ==> 0 <= #[trigger] indices@[i] < self.x@.len(),
                i <= indices@.len(),
                x@ =~= Seq::new(i as nat, |i: int| self.x@[indices@[i] as int]),
                y@ =~= Seq::new(i as nat, |i: int| self.y@[indices@[i] as int]),
            decreases indices@.len() - i,
        {
            assert(0 <= indices@[i as int] < self.x@.len());
            let k = indices[i] as usize;
            x.push(self.x[k]);
            y.push(self.y[k]);
            i = i + 1;
        }
        assert(x@ =~= self@.selected(indices@).x);
        assert(y@ =~= self@.selected(indices@).y);
        Columns { x, y }
    }

    /// The vectors, then those of `other`.
    pub fn followed(self, other: &Columns) -> (r: Self)
        ensures
            r@ == self@.followed(other@),
    {
        Columns { x: followed_by(self.x, &other.x), y: followed_by(self.y, &other.y) }
    }

    /// The sums of the vectors, pair by pair.
    pub fn plus<A: Arithmetic>(&self, arithmetic: &A, other: &Columns) -> (r: Self)
        requires
            self@.has(self.x@.len()),
            other@.has(self.x@.len()),
        ensures
            r@.has(self.x@.len()),
            forall|m: Operations| #[trigger] m.describes(*arithmetic) ==> r@ == m.plus(self@, other@),
    {
        Columns {
            x: sums(arithmetic, &self.x, &other.x),
            y: sums(arithmetic, &self.y, &other.y),
        }
    }

    /// The differences of the vectors, pair by pair.
    pub fn minus<A: Arithmetic>(&self, arithmetic: &A, other: &Columns) -> (r: Self)
        requires
            self@.has(self.x@.len()),
            other@.has(self.x@.len()),
        ensures
            r@.has(self.x@.len()),
            forall|m: Operations| #[trigger] m.describes(*arithmetic) ==> r@ == m.minus(self@, other@),
    {
        Columns {
            x: differences(arithmetic, &self.x, &other.x),
            y: differences(arithmetic, &self.y, &other.y),
        }
    }

    /// Each vector multiplied by its number.
    pub fn scaled<A: Arithmetic>(&self, arithmetic: &A, by: &Vec<Single>) -> (r: Self)
        requires
            self@.has(self.x@.len()),
            by@.len() == self.x@.len(),
        ensures
            r@.has(self.x@.len()),
            forall|m: Operations| #[trigger] m.describes(*arithmetic) ==> r@ == m.scaled(self@, by@),
    {
        Columns { x: products(arithmetic, &self.x, by), y: products(arithmetic, &self.y, by) }
    }

    /// Each vector divided by its number.
    pub fn shrunk<A: Arithmetic>(&self, arithmetic: &A, by: &Vec<Single>) -> (r: Self)
        requires
            self@.has(self.x@.len()),
            by@.len() == self.x@.len(),
        ensures
            r@.has(self.x@.len()),
            forall|m: Operations| #[trigger] m.describes(*arithmetic) ==> r@ == m.shrunk(self@, by@),
    {
        Columns { x: quotients(arithmetic, &self.x, by), y: quotients(arithmetic, &self.y, by) }
    }

    /// The inner products of the vectors, pair by pair.
    pub fn inner_products<A: Arithmetic>(&self, arithmetic: &A, other: &Columns) -> (r: Vec<Single>)
        requires
            self@.has(self.x@.len()),
            other@.has(self.x@.len()),
        ensures
            r@.len() == self.x@.len(),
            forall|m: Operations| #[trigger]
                m.describes(*arithmetic) ==> r@ == m.inner_products(self@, other@),
    {
        sums(
            arithmetic,
            &products(arithmetic, &self.x, &other.x),
            &products(arithmetic, &self.y, &other.y),
        )
    }

    /// The outer products of the vectors, pair by pair.
    pub fn outer_products<A: Arithmetic>(&self, arithmetic: &A, other: &Columns) -> (r: Vec<Single>)
        requires
            self@.has(self.x@.len()),
            other@.has(self.x@.len()),
        ensures
            r@.len() == self.x@.len(),
            forall|m: Operations| #[trigger]
                m.describes(*arithmetic) ==> r@ == m.outer_products(self@, other@),
    {
        differences(
            arithmetic,
            &products(arithmetic, &self.x, &other.y),
            &products(arithmetic, &self.y, &other.x),
        )
    }

    /// What a matrix of `rows` rows makes of the vectors, one to a column.
    pub fn spread<A: Arithmetic>(&self, arithmetic: &A, map: &Vec<Single>, rows: usize) -> (r: Self)
        requires
            self@.has(self.x@.len()),
            map@.len() == rows * self.x@.len(),
        ensures
            r@.has(rows as nat),
            forall|m: Operations| #[trigger]
                m.describes(*arithmetic) ==> r@ == m.spread(map@, rows as nat, self@),
    {
        let columns = self.x.len();
        let mut x: Vec<Single> = Vec::new();
        let mut y: Vec<Single> = Vec::new();
        let mut row: usize = 0;
        while row < rows
            invariant
                self@.has(self.x@.len()),
                columns == self.x@.len(),
                map@.len() == rows * columns,
                row <= rows,
                x@.len() == row,
                y@.len() == row,
                forall|m: Operations, r: int| #[trigger]
                    m.describes(*arithmetic) && 0 <= r < row ==> #[trigger] x@[r] == (m.dot)(
                        matrix_row(map@, r, columns as nat),
                        self.x@,
                    ),
                forall|m: Operations, r: int| #[trigger]
                    m.describes(*arithmetic) && 0 <= r < row ==> #[trigger] y@[r] == (m.dot)(
                        matrix_row(map@, r, columns as nat),
                        self.y@,
                    ),
            decreases rows - row,
        {
            let entries = row_of(map, row, columns, rows);
            x.push(dot(arithmetic, &entries, &self.x));
            y.push(dot(arithmetic, &entries, &self.y));
            row = row + 1;
        }
        assert forall|m: Operations| #[trigger] m.describes(*arithmetic) implies x@ == m.spread(
            map@,
            rows as nat,
            self@,
        ).x && y@ == m.spread(map@, rows as nat, self@).y by {
            assert(x@ =~= m.spread(map@, rows as nat, self@).x);
            assert(y@ =~= m.spread(map@, rows as nat, self@).y);
        }
        Columns { x, y }
    }
}

/// A row of a matrix that is held row by row.
fn row_of(map: &Vec<Single>, row: usize, columns: usize, rows: usize) -> (r: Vec<Single>)
    requires
        row < rows,
        map@.len() == rows * columns,
    ensures
        r@ == matrix_row(map@, row as int, columns as nat),
{
    let length = map.len();
    let mut r: Vec<Single> = Vec::new();
    let mut c: usize = 0;
    while c < columns
        invariant
            row < rows,
            length == map@.len(),
            map@.len() == rows * columns,
            c <= columns,
            r@ =~= Seq::new(c as nat, |c: int| map@[cell(row as int, c, columns as int)]),
        decreases columns - c,
    {
        proof {
            lemma_cell(row as int, c as int, rows as int, columns as int);
            assert(row * columns >= 0) by (nonlinear_arith);
        }
        r.push(map[row * columns + c]);
        c = c + 1;
    }
    r
}

} // verus!
