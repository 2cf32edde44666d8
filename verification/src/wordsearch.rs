//! Words hidden in a grid of letters, along rows, columns and diagonals.

use vstd::prelude::*;
use crate::text::views;

verus! {

/// The letter at row `r` and column `c`, if the grid has one there.
pub open spec fn letter(grid: Seq<Seq<char>>, r: int, c: int) -> Option<char> {
    if 0 <= r < grid.len() && 0 <= c < grid[r].len() {
        Some(grid[r][c])
    } else {
        None
    }
}

/// The eight directions, as changes of row and column: right, left, down,
/// up, and the four diagonals.
pub open spec fn heading(d: int) -> (int, int) {
    if d == 0 {
        (0, 1)
    } else if d == 1 {
        (0, -1)
    } else if d == 2 {
        (1, 0)
    } else if d == 3 {
        (-1, 0)
    } else if d == 4 {
        (1, 1)
    } else if d == 5 {
        (1, -1)
    } else if d == 6 {
        (-1, 1)
    } else {
        (-1, -1)
    }
}

/// The `i`-th letter of the word stands `i` steps from `(r, c)` in the
/// direction `d`.
pub open spec fn letter_fits(grid: Seq<Seq<char>>, word: Seq<char>, r: int, c: int, d: int, i: int) -> bool {
    letter(grid, r + i * heading(d).0, c + i * heading(d).1) == Some(word[i])
}

/// The word stands at `(r, c)` in the direction `d`.
pub open spec fn found_at(grid: Seq<Seq<char>>, word: Seq<char>, r: int, c: int, d: int) -> bool {
    forall|i: int| 0 <= i < word.len() ==> #[trigger] letter_fits(grid, word, r, c, d, i)
}

/// In how many of the first `bound` directions the word stands at `(r, c)`.
pub open spec fn found_in_dirs(grid: Seq<Seq<char>>, word: Seq<char>, r: int, c: int, bound: int) -> nat
    decreases bound,
{
    if bound <= 0 {
        0
    } else {
        found_in_dirs(grid, word, r, c, bound - 1) + if found_at(grid, word, r, c, bound - 1) {
            1nat
        } else {
            0nat
        }
    }
}

/// How often the word stands in row `r` at a column before `bound`.
pub open spec fn found_in_row(grid: Seq<Seq<char>>, word: Seq<char>, r: int, bound: int) -> nat
    decreases bound,
{
    if bound <= 0 {
        0
    } else {
        found_in_row(grid, word, r, bound - 1) + found_in_dirs(grid, word, r, bound - 1, 8)
    }
}

/// How often the word stands in the rows before `bound`, at the columns
/// that the first row has.
pub open spec fn found_in_rows(grid: Seq<Seq<char>>, word: Seq<char>, bound: int) -> nat
    decreases bound,
{
    if bound <= 0 || grid.len() == 0 {
        0
    } else {
        found_in_rows(grid, word, bound - 1) + found_in_row(
            grid,
            word,
            bound - 1,
            grid[0].len() as int,
        )
    }
}

pub proof fn lemma_dirs_bound(grid: Seq<Seq<char>>, word: Seq<char>, r: int, c: int, bound: int)
    requires
        0 <= bound,
    ensures
        found_in_dirs(grid, word, r, c, bound) <= bound,
    decreases bound,
{
    if bound > 0 {
        lemma_dirs_bound(grid, word, r, c, bound - 1);
    }
}

pub proof fn lemma_row_bound(grid: Seq<Seq<char>>, word: Seq<char>, r: int, bound: int)
    requires
        0 <= bound,
    ensures
        found_in_row(grid, word, r, bound) <= 8 * bound,
    decreases bound,
{
    if bound > 0 {
        lemma_row_bound(grid, word, r, bound - 1);
        lemma_dirs_bound(grid, word, r, bound - 1, 8);
    }
}

pub proof fn lemma_rows_bound(grid: Seq<Seq<char>>, word: Seq<char>, bound: int)
    requires
        0 <= bound,
        grid.len() > 0,
    ensures
        found_in_rows(grid, word, bound) <= 8 * grid[0].len() * bound,
    decreases bound,
{
    if bound > 0 {
        lemma_rows_bound(grid, word, bound - 1);
        lemma_row_bound(grid, word, bound - 1, grid[0].len() as int);
        assert(8 * grid[0].len() * bound == 8 * grid[0].len() * (bound - 1) + 8 * grid[0].len())
            by (nonlinear_arith);
    }
}

/// The letter at a place given by whole numbers.
fn letter_at(grid: &Vec<Vec<char>>, r: i128, c: i128) -> (l: Option<char>)
    ensures
        l == letter(views(grid@), r as int, c as int),
{
    if r < 0 || c < 0 || r >= grid.len() as i128 {
        return None;
    }
    let row = &grid[r as usize];
    assert(views(grid@)[r as int] == row@);
    if c >= row.len() as i128 {
        return None;
    }
    Some(row[c as usize])
}

/// Whether the word stands at `(row, col)` in the direction `d`.
pub fn is_found_at(grid: &Vec<Vec<char>>, word: &Vec<char>, row: usize, col: usize, d: u8) -> (b: bool)
    requires
        d < 8,
    ensures
        b == found_at(views(grid@), word@, row as int, col as int, d as int),
{
    let ghost g = views(grid@);
    let (dr, dc): (i128, i128) = match d {
        0 => (0, 1),
        1 => (0, -1),
        2 => (1, 0),
        3 => (-1, 0),
        4 => (1, 1),
        5 => (1, -1),
        6 => (-1, 1),
        _ => (-1, -1),
    };
    let mut r: i128 = row as i128;
    let mut c: i128 = col as i128;
    let mut i: usize = 0;
    while i < word.len()
        invariant
            i <= word.len(),
            g == views(grid@),
            (dr as int, dc as int) == heading(d as int),
            -1 <= dr <= 1,
            -1 <= dc <= 1,
            r == row + i * dr,
            c == col + i * dc,
            row - i <= r <= row + i,
            col - i <= c <= col + i,
            forall|k: int| 0 <= k < i ==> #[trigger] letter_fits(g, word@, row as int, col as int, d as int, k),
        decreases word.len() - i,
    {
        match letter_at(grid, r, c) {
            Some(l) => {
                if l != word[i] {
                    assert(!letter_fits(g, word@, row as int, col as int, d as int, i as int));
                    return false;
                }
            },
            None => {
                assert(!letter_fits(g, word@, row as int, col as int, d as int, i as int));
                return false;
            },
        }
        proof {
            assert((i + 1) * dr == i * dr + dr) by (nonlinear_arith);
            assert((i + 1) * dc == i * dc + dc) by (nonlinear_arith);
        }
        r = r + dr;
        c = c + dc;
        i += 1;
    }
    true
}

pub proof fn lemma_rows_grow(grid: Seq<Seq<char>>, word: Seq<char>, a: int, b: int)
    requires
        a <= b,
    ensures
        found_in_rows(grid, word, a) <= found_in_rows(grid, word, b),
    decreases b - a,
{
    if a < b {
        lemma_rows_grow(grid, word, a, b - 1);
    }
}

/// Counts how often the word stands in the grid, in any of the eight
/// directions, beginning at a column that the first row has. There is no
/// count where it exceeds 128 bits.
pub fn count_word(grid: &Vec<Vec<char>>, word: &Vec<char>) -> (r: Option<u128>)
    ensures
        match r {
            Some(count) => count == found_in_rows(views(grid@), word@, grid.len() as int),
            None => found_in_rows(views(grid@), word@, grid.len() as int) > u128::MAX,
        },
{
    let ghost g = views(grid@);
    if grid.len() == 0 {
        return Some(0);
    }
    let rows = grid.len();
    let cols = grid[0].len();
    assert(g[0] == grid@[0]@);
    let mut count: u128 = 0;
    let mut row: usize = 0;
    while row < rows
        invariant
            row <= rows,
            rows == grid.len(),
            rows > 0,
            cols == g[0].len(),
            g == views(grid@),
            count == found_in_rows(g, word@, row as int),
        decreases rows - row,
    {
        let mut in_row: u128 = 0;
        let mut col: usize = 0;
        while col < cols
            invariant
                col <= cols,
                row < rows,
                rows == grid.len(),
                g == views(grid@),
                in_row == found_in_row(g, word@, row as int, col as int),
                in_row <= 8 * col,
            decreases cols - col,
        {
            let mut d: u8 = 0;
            let mut here: u128 = 0;
            while d < 8
                invariant
                    d <= 8,
                    g == views(grid@),
                    here == found_in_dirs(g, word@, row as int, col as int, d as int),
                    here <= d,
                decreases 8 - d,
            {
                if is_found_at(grid, word, row, col, d) {
                    here += 1;
                }
                d += 1;
            }
            in_row += here;
            col += 1;
        }
        match count.checked_add(in_row) {
            Some(t) => {
                count = t;
            },
            None => {
                proof {
                    lemma_rows_grow(g, word@, row + 1, rows as int);
                }
                return None;
            },
        }
        row += 1;
    }
    Some(count)
}

/// The letter is an `'M'` or an `'S'`.
pub open spec fn arm(l: Option<char>) -> bool {
    l == Some('M') || l == Some('S')
}

/// An `'A'` stands at `(r, c)`, and on each of its diagonals an `'M'` and
/// an `'S'`.
pub open spec fn is_cross(grid: Seq<Seq<char>>, r: int, c: int) -> bool {
    &&& letter(grid, r, c) == Some('A')
    &&& arm(letter(grid, r - 1, c - 1))
    &&& arm(letter(grid, r - 1, c + 1))
    &&& arm(letter(grid, r + 1, c - 1))
    &&& arm(letter(grid, r + 1, c + 1))
    &&& letter(grid, r - 1, c - 1) != letter(grid, r + 1, c + 1)
    &&& letter(grid, r - 1, c + 1) != letter(grid, r + 1, c - 1)
}

/// How many crosses stand in row `r` at a column from 1 up to `bound`.
pub open spec fn crosses_in_row(grid: Seq<Seq<char>>, r: int, bound: int) -> nat
    decreases bound,
{
    if bound <= 1 {
        0
    } else {
        crosses_in_row(grid, r, bound - 1) + if is_cross(grid, r, bound - 1) {
            1nat
        } else {
            0nat
        }
    }
}

/// How many crosses stand in the rows from 1 up to `bound`, at the columns
/// from 1 up to `cols`.
pub open spec fn crosses_in_rows(grid: Seq<Seq<char>>, bound: int, cols: int) -> nat
    decreases bound,
{
    if bound <= 1 {
        0
    } else {
        crosses_in_rows(grid, bound - 1, cols) + crosses_in_row(grid, bound - 1, cols)
    }
}

pub proof fn lemma_crosses_row_bound(grid: Seq<Seq<char>>, r: int, bound: int)
    requires
        0 <= bound,
    ensures
        crosses_in_row(grid, r, bound) <= bound,
    decreases bound,
{
    if bound > 1 {
        lemma_crosses_row_bound(grid, r, bound - 1);
    }
}

pub proof fn lemma_crosses_rows_bound(grid: Seq<Seq<char>>, bound: int, cols: int)
    requires
        0 <= bound,
        0 <= cols,
    ensures
        crosses_in_rows(grid, bound, cols) <= cols * bound,
    decreases bound,
{
    if bound > 1 {
        lemma_crosses_rows_bound(grid, bound - 1, cols);
        lemma_crosses_row_bound(grid, bound - 1, cols);
        assert(cols * bound == cols * (bound - 1) + cols) by (nonlinear_arith);
    } else {
        assert(cols * bound >= 0) by (nonlinear_arith)
            requires
                0 <= bound,
                0 <= cols,
        ;
    }
}

/// Whether a cross stands at `(row, col)`.
pub fn is_cross_at(grid: &Vec<Vec<char>>, row: usize, col: usize) -> (b: bool)
    ensures
        b == is_cross(views(grid@), row as int, col as int),
{
    let r = row as i128;
    let c = col as i128;
    match letter_at(grid, r, c) {
        Some(l) => {
            if l != 'A' {
                return false;
            }
        },
        None => {
            return false;
        },
    }
    let tl = letter_at(grid, r - 1, c - 1);
    let tr = letter_at(grid, r - 1, c + 1);
    let bl = letter_at(grid, r + 1, c - 1);
    let br = letter_at(grid, r + 1, c + 1);
    match (tl, tr, bl, br) {
        (Some(a), Some(b), Some(x), Some(y)) => {
            (a == 'M' || a == 'S') && (b == 'M' || b == 'S') && (x == 'M' || x == 'S') && (y == 'M'
                || y == 'S') && a != y && b != x
        },
        _ => false,
    }
}

/// Counts the crosses of two diagonal `MAS` in the grid, centred off the
/// border of the grid that the first row gives.
pub fn count_crosses(grid: &Vec<Vec<char>>) -> (found: u128)
    ensures
        found == (if grid.len() == 0 {
            0
        } else {
            crosses_in_rows(views(grid@), grid.len() - 1, grid[0].len() - 1)
        }),
{
    let ghost g = views(grid@);
    if grid.len() == 0 {
        return 0;
    }
    let y = grid.len();
    let x = grid[0].len();
    assert(g[0] == grid@[0]@);
    if x == 0 {
        proof {
            lemma_crosses_zero(g, y - 1, -1);
        }
        return 0;
    }
    let mut found: u128 = 0;
    let mut j: usize = 1;
    while j < y - 1
        invariant
            1 <= j,
            j <= y - 1 || (y == 1 && j == 1),
            y == grid.len(),
            x >= 1,
            g == views(grid@),
            found == crosses_in_rows(g, j as int, x - 1),
        decreases y - j,
    {
        let mut in_row: u128 = 0;
        let mut i: usize = 1;
        while i < x - 1
            invariant
                1 <= i,
                i <= x - 1 || (x == 1 && i == 1),
                g == views(grid@),
                x >= 1,
                in_row == crosses_in_row(g, j as int, i as int),
                in_row <= i,
            decreases x - i,
        {
            if is_cross_at(grid, j, i) {
                in_row += 1;
            }
            i += 1;
        }
        proof {
            lemma_crosses_rows_bound(g, j as int, x - 1);
            assert((x - 1) * j <= 0xffff_ffff_ffff_ffff * 0xffff_ffff_ffff_ffff) by (nonlinear_arith)
                requires
                    0 <= x - 1 <= 0xffff_ffff_ffff_ffff,
                    j <= 0xffff_ffff_ffff_ffff,
            ;
            if x == 1 {
                assert(crosses_in_row(g, j as int, 0) == 0);
                assert(crosses_in_row(g, j as int, 1) == 0);
            }
            assert(in_row == crosses_in_row(g, j as int, x - 1));
            assert(crosses_in_rows(g, j + 1, x - 1) == crosses_in_rows(g, j as int, x - 1)
                + crosses_in_row(g, j as int, x - 1));
        }
        found += in_row;
        j += 1;
    }
    proof {
        if y == 1 {
            assert(crosses_in_rows(g, 0, x - 1) == 0);
            assert(crosses_in_rows(g, 1, x - 1) == 0);
        }
        assert(j == y - 1 || y == 1);
        assert(x == grid[0].len());
    }
    found
}

/// No crosses are counted where there are no columns to look at.
pub proof fn lemma_crosses_zero(grid: Seq<Seq<char>>, bound: int, cols: int)
    requires
        cols <= 1,
    ensures
        crosses_in_rows(grid, bound, cols) == 0,
    decreases bound,
{
    if bound > 1 {
        lemma_crosses_zero(grid, bound - 1, cols);
    }
}

} // verus!
