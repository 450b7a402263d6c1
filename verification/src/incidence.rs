//! Matrices that add what belongs to edges or joints to the particles they touch.

use crate::single::{Single, MINUS_ONE, MINUS_ZERO, ONE, ZERO};
use vstd::arithmetic::div_mod::*;
use vstd::arithmetic::mul::*;
use vstd::prelude::*;

verus! {

/// Where the entry of a row and a column stands in a matrix held row by row.
pub open spec fn cell(row: int, column: int, columns: int) -> int {
    row * columns + column
}

/// The entry of a column: one in the row that the column belongs to and zero elsewhere, both
/// negated from column `plus` on.
pub open spec fn mark(hit: bool, column: int, plus: int) -> Single {
    if column < plus {
        if hit {
            Single::of(ONE)
        } else {
            Single::of(ZERO)
        }
    } else {
        if hit {
            Single::of(MINUS_ONE)
        } else {
            Single::of(MINUS_ZERO)
        }
    }
}

/// The matrix has `rows` rows and a column for each of `positions`, marked in the row that the
/// position names.
pub open spec fn is_incidence(
    map: Seq<Single>,
    rows: int,
    positions: Seq<usize>,
    plus: int,
) -> bool {
    &&& map.len() == rows * positions.len()
    &&& forall|row: int, column: int|
        0 <= row < rows && 0 <= column < positions.len() ==> #[trigger] map[cell(
            row,
            column,
            positions.len() as int,
        )] == mark(positions[column] == row, column, plus)
}

/// A cell lies inside the matrix, and no other cell lies there.
pub proof fn lemma_cell(row: int, column: int, rows: int, columns: int)
    requires
        0 <= row < rows,
        0 <= column < columns,
    ensures
        0 <= cell(row, column, columns) < rows * columns,
        cell(row, column, columns) / columns == row,
        cell(row, column, columns) % columns == column,
{
    lemma_fundamental_div_mod_converse(cell(row, column, columns), columns, row, column);
    assert(0 <= row * columns) by (nonlinear_arith)
        requires
            row >= 0,
            columns >= 0,
    ;
    assert(row * columns + columns <= rows * columns) by (nonlinear_arith)
        requires
            row + 1 <= rows,
            columns >= 0,
    ;
}

/// Fills a matrix of `rows` rows with a column for each of `positions`.
pub fn incidence(rows: usize, positions: &Vec<usize>, plus: usize) -> (map: Vec<Single>)
    requires
        rows * positions@.len() <= usize::MAX,
    ensures
        is_incidence(map@, rows as int, positions@, plus as int),
{
    let columns = positions.len();
    let mut map: Vec<Single> = Vec::new();
    let mut row: usize = 0;
    proof {
        assert(0 * columns == 0);
    }
    while row < rows
        invariant
            columns == positions@.len(),
            row <= rows,
            map@.len() == row * columns,
            forall|k: int|
                0 <= k < map@.len() ==> #[trigger] map@[k] == mark(
                    positions@[k % (columns as int)] == k / (columns as int),
                    k % (columns as int),
                    plus as int,
                ),
        decreases rows - row,
    {
        let mut column: usize = 0;
        while column < columns
            invariant
                columns == positions@.len(),
                row < rows,
                column <= columns,
                map@.len() == row * columns + column,
                forall|k: int|
                    0 <= k < map@.len() ==> #[trigger] map@[k] == mark(
                        positions@[k % (columns as int)] == k / (columns as int),
                        k % (columns as int),
                        plus as int,
                    ),
            decreases columns - column,
        {
            let hit = positions[column] == row;
            let entry = if column < plus {
                if hit {
                    Single { bits: ONE }
                } else {
                    Single { bits: ZERO }
                }
            } else {
                if hit {
                    Single { bits: MINUS_ONE }
                } else {
                    Single { bits: MINUS_ZERO }
                }
            };
            proof {
                lemma_cell(row as int, column as int, rows as int, columns as int);
            }
            map.push(entry);
            column = column + 1;
        }
        proof {
            lemma_mul_is_distributive_add_other_way(columns as int, row as int, 1);
        }
        row = row + 1;
    }
    proof {
        assert forall|r: int, c: int| 0 <= r < rows && 0 <= c < positions@.len() implies #[trigger] map@[cell(
            r,
            c,
            positions@.len() as int,
        )] == mark(positions@[c] == r, c, plus as int) by {
            lemma_cell(r, c, rows as int, columns as int);
        }
    }
    map
}

/// The integer that an entry stands for.
pub open spec fn weight(entry: Single) -> int {
    if entry == Single::of(ONE) {
        1
    } else if entry == Single::of(MINUS_ONE) {
        -1
    } else {
        0
    }
}

/// What a row of the matrix makes of the first `count` of `amounts`, one amount to a column.
pub open spec fn row_total(
    map: Seq<Single>,
    row: int,
    columns: int,
    amounts: Seq<int>,
    count: int,
) -> int
    decreases count,
{
    if count <= 0 {
        0
    } else {
        row_total(map, row, columns, amounts, count - 1) + weight(
            map[cell(row, count - 1, columns)],
        ) * amounts[count - 1]
    }
}

/// What the first `count` columns hold for one row: the amounts whose position is that row.
pub open spec fn share(
    positions: Seq<usize>,
    plus: int,
    row: int,
    amounts: Seq<int>,
    count: int,
) -> int
    decreases count,
{
    if count <= 0 {
        0
    } else {
        share(positions, plus, row, amounts, count - 1) + if positions[count - 1] == row {
            if count - 1 < plus {
                amounts[count - 1]
            } else {
                -amounts[count - 1]
            }
        } else {
            0
        }
    }
}

/// Multiplying by the matrix adds each amount to the row of its position, negated from column
/// `plus` on.
pub proof fn law_map_adds_to_positions(
    map: Seq<Single>,
    rows: int,
    positions: Seq<usize>,
    plus: int,
    amounts: Seq<int>,
    row: int,
)
    requires
        is_incidence(map, rows, positions, plus),
        0 <= row < rows,
        amounts.len() == positions.len(),
    ensures
        row_total(map, row, positions.len() as int, amounts, positions.len() as int) == share(
            positions,
            plus,
            row,
            amounts,
            positions.len() as int,
        ),
{
    lemma_map_adds(map, rows, positions, plus, amounts, row, positions.len() as int);
}

proof fn lemma_map_adds(
    map: Seq<Single>,
    rows: int,
    positions: Seq<usize>,
    plus: int,
    amounts: Seq<int>,
    row: int,
    count: int,
)
    requires
        is_incidence(map, rows, positions, plus),
        0 <= row < rows,
        count <= positions.len(),
    ensures
        row_total(map, row, positions.len() as int, amounts, count) == share(
            positions,
            plus,
            row,
            amounts,
            count,
        ),
    decreases count,
{
    if count > 0 {
        lemma_map_adds(map, rows, positions, plus, amounts, row, count - 1);
        let entry = map[cell(row, count - 1, positions.len() as int)];
        assert(entry == mark(positions[count - 1] == row, count - 1, plus));
        let amount = amounts[count - 1];
        assert(weight(entry) * amount == (if weight(entry) == 1 {
            amount
        } else if weight(entry) == -1 {
            -amount
        } else {
            0
        })) by (nonlinear_arith)
            requires
                weight(entry) == 1 || weight(entry) == -1 || weight(entry) == 0,
        ;
    }
}

/// The shares of the first `rows` rows together.
pub open spec fn shares_total(
    positions: Seq<usize>,
    plus: int,
    rows: int,
    amounts: Seq<int>,
    count: int,
) -> int
    decreases rows,
{
    if rows <= 0 {
        0
    } else {
        shares_total(positions, plus, rows - 1, amounts, count) + share(
            positions,
            plus,
            rows - 1,
            amounts,
            count,
        )
    }
}

/// The first `count` amounts together, negated from column `plus` on.
pub open spec fn amounts_total(plus: int, amounts: Seq<int>, count: int) -> int
    decreases count,
{
    if count <= 0 {
        0
    } else {
        amounts_total(plus, amounts, count - 1) + if count - 1 < plus {
            amounts[count - 1]
        } else {
            -amounts[count - 1]
        }
    }
}

/// Nothing is lost and nothing is added: the rows together receive each amount once.
pub proof fn law_map_keeps_the_total(
    positions: Seq<usize>,
    plus: int,
    rows: int,
    amounts: Seq<int>,
    count: int,
)
    requires
        0 <= count <= positions.len(),
        rows >= 0,
        forall|i: int| 0 <= i < positions.len() ==> #[trigger] positions[i] < rows,
    ensures
        shares_total(positions, plus, rows, amounts, count) == amounts_total(plus, amounts, count),
    decreases count,
{
    if count > 0 {
        law_map_keeps_the_total(positions, plus, rows, amounts, count - 1);
        lemma_last_amount_lands_once(positions, plus, rows, amounts, count);
    } else {
        lemma_nothing_lands(positions, plus, rows, amounts);
    }
}

proof fn lemma_nothing_lands(positions: Seq<usize>, plus: int, rows: int, amounts: Seq<int>)
    ensures
        shares_total(positions, plus, rows, amounts, 0) == 0,
    decreases rows,
{
    if rows > 0 {
        lemma_nothing_lands(positions, plus, rows - 1, amounts);
    }
}

proof fn lemma_last_amount_lands_once(
    positions: Seq<usize>,
    plus: int,
    rows: int,
    amounts: Seq<int>,
    count: int,
)
    requires
        0 < count <= positions.len(),
        rows >= 0,
    ensures
        shares_total(positions, plus, rows, amounts, count) == shares_total(
            positions,
            plus,
            rows,
            amounts,
            count - 1,
        ) + if positions[count - 1] < rows {
            if count - 1 < plus {
                amounts[count - 1]
            } else {
                -amounts[count - 1]
            }
        } else {
            0
        },
    decreases rows,
{
    if rows > 0 {
        lemma_last_amount_lands_once(positions, plus, rows - 1, amounts, count);
    }
}

/// What the first `rows` rows of the matrix make of the amounts, together.
pub open spec fn rows_total(map: Seq<Single>, rows: int, columns: int, amounts: Seq<int>) -> int
    decreases rows,
{
    if rows <= 0 {
        0
    } else {
        rows_total(map, rows - 1, columns, amounts) + row_total(
            map,
            rows - 1,
            columns,
            amounts,
            columns,
        )
    }
}

/// The rows of the matrix together make of the amounts their total, negated from column `plus` on.
pub proof fn law_rows_make_the_total(
    map: Seq<Single>,
    rows: int,
    positions: Seq<usize>,
    plus: int,
    amounts: Seq<int>,
)
    requires
        is_incidence(map, rows, positions, plus),
        rows >= 0,
        amounts.len() == positions.len(),
        forall|i: int| 0 <= i < positions.len() ==> #[trigger] positions[i] < rows,
    ensures
        rows_total(map, rows, positions.len() as int, amounts) == amounts_total(
            plus,
            amounts,
            positions.len() as int,
        ),
{
    lemma_rows_make_shares(map, rows, rows, positions, plus, amounts);
    law_map_keeps_the_total(positions, plus, rows, amounts, positions.len() as int);
}

proof fn lemma_rows_make_shares(
    map: Seq<Single>,
    rows: int,
    up_to: int,
    positions: Seq<usize>,
    plus: int,
    amounts: Seq<int>,
)
    requires
        is_incidence(map, rows, positions, plus),
        up_to <= rows,
        amounts.len() == positions.len(),
    ensures
        rows_total(map, up_to, positions.len() as int, amounts) == shares_total(
            positions,
            plus,
            up_to,
            amounts,
            positions.len() as int,
        ),
    decreases up_to,
{
    if up_to > 0 {
        lemma_rows_make_shares(map, rows, up_to - 1, positions, plus, amounts);
        law_map_adds_to_positions(map, rows, positions, plus, amounts, up_to - 1);
    }
}

} // verus!
