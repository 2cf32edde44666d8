//! Tables of marks, one for each cell of a grid.

use vstd::prelude::*;
use crate::text::{lemma_views_push, views};

verus! {

/// How many cells of row `y` before column `bound` are marked.
pub open spec fn marked_in_row(marks: Seq<Seq<bool>>, y: int, bound: int) -> nat
    decreases bound,
{
    if bound <= 0 {
        0
    } else {
        marked_in_row(marks, y, bound - 1) + if marks[y][bound - 1] {
            1nat
        } else {
            0nat
        }
    }
}

/// How many cells of the rows before `bound` are marked.
pub open spec fn marked_in_rows(marks: Seq<Seq<bool>>, bound: int) -> nat
    decreases bound,
{
    if bound <= 0 {
        0
    } else {
        marked_in_rows(marks, bound - 1) + marked_in_row(marks, bound - 1, marks[bound - 1].len() as int)
    }
}

pub proof fn lemma_marked_row_bound(marks: Seq<Seq<bool>>, y: int, bound: int)
    requires
        0 <= bound,
    ensures
        marked_in_row(marks, y, bound) <= bound,
    decreases bound,
{
    if bound > 0 {
        lemma_marked_row_bound(marks, y, bound - 1);
    }
}

pub proof fn lemma_marked_rows_bound(marks: Seq<Seq<bool>>, bound: int, width: int)
    requires
        0 <= bound <= marks.len(),
        0 <= width,
        forall|y: int| 0 <= y < marks.len() ==> (#[trigger] marks[y]).len() == width,
    ensures
        marked_in_rows(marks, bound) <= bound * width,
    decreases bound,
{
    if bound > 0 {
        lemma_marked_rows_bound(marks, bound - 1, width);
        lemma_marked_row_bound(marks, bound - 1, width);
        assert(bound * width == (bound - 1) * width + width) by (nonlinear_arith);
    }
}

/// Two tables that agree on the first `bound` cells of row `y` have as
/// many marks there.
pub proof fn lemma_row_same(a: Seq<Seq<bool>>, b: Seq<Seq<bool>>, y: int, bound: int)
    requires
        forall|x: int| 0 <= x < bound ==> a[y][x] == b[y][x],
    ensures
        marked_in_row(a, y, bound) == marked_in_row(b, y, bound),
    decreases bound,
{
    if bound > 0 {
        lemma_row_same(a, b, y, bound - 1);
    }
}

/// One more mark in a row is one more mark counted.
pub proof fn lemma_row_plus(a: Seq<Seq<bool>>, b: Seq<Seq<bool>>, y: int, at: int, bound: int)
    requires
        0 <= at < bound,
        !a[y][at],
        b[y][at],
        forall|x: int| 0 <= x < bound && x != at ==> a[y][x] == b[y][x],
    ensures
        marked_in_row(b, y, bound) == marked_in_row(a, y, bound) + 1,
    decreases bound,
{
    if bound - 1 == at {
        lemma_row_same(a, b, y, bound - 1);
    } else {
        lemma_row_plus(a, b, y, at, bound - 1);
    }
}

/// Two tables that agree on their first `bound` rows have as many marks
/// there.
pub proof fn lemma_rows_same(a: Seq<Seq<bool>>, b: Seq<Seq<bool>>, bound: int)
    requires
        0 <= bound <= a.len(),
        a.len() == b.len(),
        forall|y: int| 0 <= y < bound ==> (#[trigger] a[y]).len() == b[y].len(),
        forall|x: int, y: int| 0 <= y < bound && 0 <= x < a[y].len() ==> a[y][x] == b[y][x],
    ensures
        marked_in_rows(a, bound) == marked_in_rows(b, bound),
    decreases bound,
{
    if bound > 0 {
        lemma_rows_same(a, b, bound - 1);
        assert(a[bound - 1].len() == b[bound - 1].len());
        lemma_row_same(a, b, bound - 1, a[bound - 1].len() as int);
    }
}

/// One more mark in a table is one more mark counted.
pub proof fn lemma_rows_plus(a: Seq<Seq<bool>>, b: Seq<Seq<bool>>, at: (int, int), bound: int)
    requires
        0 <= at.1 < bound <= a.len(),
        0 <= at.0 < a[at.1].len(),
        a.len() == b.len(),
        forall|y: int| 0 <= y < bound ==> (#[trigger] a[y]).len() == b[y].len(),
        !a[at.1][at.0],
        b[at.1][at.0],
        forall|x: int, y: int|
            0 <= y < bound && 0 <= x < a[y].len() && !(x == at.0 && y == at.1) ==> a[y][x] == b[y][x],
    ensures
        marked_in_rows(b, bound) == marked_in_rows(a, bound) + 1,
    decreases bound,
{
    assert(a[bound - 1].len() == b[bound - 1].len());
    if bound - 1 == at.1 {
        lemma_rows_same(a, b, bound - 1);
        lemma_row_plus(a, b, at.1, at.0, a[at.1].len() as int);
    } else {
        lemma_rows_plus(a, b, at, bound - 1);
        lemma_row_same(a, b, bound - 1, a[bound - 1].len() as int);
    }
}

/// A table of `rows` by `cols` marks, none of them set.
pub fn blank_marks(rows: usize, cols: usize) -> (marks: Vec<Vec<bool>>)
    ensures
        marks.len() == rows,
        forall|y: int| 0 <= y < rows ==> (#[trigger] views(marks@)[y]).len() == cols,
        forall|x: int, y: int| 0 <= y < rows && 0 <= x < cols ==> !#[trigger] views(marks@)[y][x],
{
    let mut marks: Vec<Vec<bool>> = Vec::new();
    let mut y: usize = 0;
    while y < rows
        invariant
            y <= rows,
            marks.len() == y,
            forall|k: int| 0 <= k < y ==> (#[trigger] views(marks@)[k]).len() == cols,
            forall|x: int, k: int| 0 <= k < y && 0 <= x < cols ==> !#[trigger] views(marks@)[k][x],
        decreases rows - y,
    {
        let mut row: Vec<bool> = Vec::new();
        let mut x: usize = 0;
        while x < cols
            invariant
                x <= cols,
                row.len() == x,
                forall|k: int| 0 <= k < x ==> !row@[k],
            decreases cols - x,
        {
            row.push(false);
            x += 1;
        }
        proof {
            lemma_views_push(marks@, row);
        }
        marks.push(row);
        y += 1;
    }
    marks
}

/// Sets the mark at `(x, y)` if the table has it.
pub fn set_mark(marks: &mut Vec<Vec<bool>>, x: i128, y: i128)
    ensures
        views(final(marks)@).len() == views(old(marks)@).len(),
        forall|k: int|
            0 <= k < views(old(marks)@).len() ==> (#[trigger] views(final(marks)@)[k]).len() == views(
                old(marks)@,
            )[k].len(),
        forall|x2: int, y2: int|
            0 <= y2 < views(old(marks)@).len() && 0 <= x2 < views(old(marks)@)[y2].len() ==> (
            #[trigger] views(final(marks)@)[y2][x2] <==> views(old(marks)@)[y2][x2] || (x2 == x && y2
                == y)),
{
    if x < 0 || y < 0 || y >= marks.len() as i128 {
        return ;
    }
    let ghost before = views(marks@);
    assert(before[y as int] == marks@[y as int]@);
    if x >= marks[y as usize].len() as i128 {
        return ;
    }
    let mut row: Vec<bool> = Vec::new();
    marks.set_and_swap(y as usize, &mut row);
    row.set(x as usize, true);
    marks.set(y as usize, row);
}

/// Counts the marks that are set.
pub fn count_marks(marks: &Vec<Vec<bool>>, cols: usize) -> (n: u128)
    requires
        forall|y: int| 0 <= y < marks.len() ==> (#[trigger] views(marks@)[y]).len() == cols,
    ensures
        n == marked_in_rows(views(marks@), marks.len() as int),
{
    let ghost m = views(marks@);
    let mut n: u128 = 0;
    let mut y: usize = 0;
    while y < marks.len()
        invariant
            y <= marks.len(),
            m == views(marks@),
            forall|k: int| 0 <= k < marks.len() ==> (#[trigger] m[k]).len() == cols,
            n == marked_in_rows(m, y as int),
        decreases marks.len() - y,
    {
        let row = &marks[y];
        assert(m[y as int] == row@);
        let mut in_row: u128 = 0;
        let mut x: usize = 0;
        while x < row.len()
            invariant
                x <= row.len(),
                y < marks.len(),
                m == views(marks@),
                m[y as int] == row@,
                in_row == marked_in_row(m, y as int, x as int),
                in_row <= x,
            decreases row.len() - x,
        {
            if row[x] {
                in_row += 1;
            }
            x += 1;
        }
        proof {
            lemma_marked_rows_bound(m, y as int, cols as int);
            assert(y * cols <= 0xffff_ffff_ffff_ffff * 0xffff_ffff_ffff_ffff) by (nonlinear_arith)
                requires
                    y <= 0xffff_ffff_ffff_ffff,
                    cols <= 0xffff_ffff_ffff_ffff,
            ;
        }
        n += in_row;
        y += 1;
    }
    n
}

} // verus!
