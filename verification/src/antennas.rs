//! Antennas on a grid and the lines between them.

use vstd::prelude::*;
use crate::marks::{blank_marks, count_marks, marked_in_row, marked_in_rows, set_mark};
use crate::text::views;

verus! {

/// `d` divides `n`.
pub open spec fn divides(d: nat, n: nat) -> bool {
    exists|k: nat| n == #[trigger] (k * d)
}

/// `g` is the greatest common divisor of `a` and `b`: it divides both, and
/// whatever divides both divides it. The greatest common divisor of 0 and
/// 0 is 0.
pub open spec fn is_gcd(a: nat, b: nat, g: nat) -> bool {
    &&& divides(g, a)
    &&& divides(g, b)
    &&& forall|d: nat| #[trigger] divides(d, a) && divides(d, b) ==> divides(d, g)
}

/// `d` divides both `a` and `b`.
pub open spec fn common(d: nat, a: nat, b: nat) -> bool {
    divides(d, a) && divides(d, b)
}

/// The size of a number.
pub open spec fn size(a: i32) -> nat {
    if a < 0 {
        (-a) as nat
    } else {
        a as nat
    }
}

/// What divides two numbers divides the remainder of one by the other.
pub proof fn lemma_divides_rem(d: nat, x: nat, y: nat)
    requires
        y > 0,
        divides(d, y),
    ensures
        divides(d, x) <==> divides(d, x % y),
{
    let q = x / y;
    let r = x % y;
    vstd::arithmetic::div_mod::lemma_fundamental_div_mod(x as int, y as int);
    vstd::arithmetic::div_mod::lemma_mod_bound(x as int, y as int);
    assert(0 <= q) by {
        vstd::arithmetic::div_mod::lemma_div_pos_is_pos(x as int, y as int);
    }
    let ky = choose|k: nat| y == #[trigger] (k * d);
    if divides(d, x) {
        let kx = choose|k: nat| x == #[trigger] (k * d);
        assert(kx >= q * ky) by (nonlinear_arith)
            requires
                kx * d == y * q + r,
                y == ky * d,
                r >= 0,
                q >= 0,
                d >= 0,
                r < y,
        {
            assert(kx * d >= (q * ky) * d);
            if d == 0 {
                assert(y == 0);
            }
        }
        let k = (kx - q * ky) as nat;
        assert(r == k * d) by (nonlinear_arith)
            requires
                kx * d == y * q + r,
                y == ky * d,
                k == kx - q * ky,
        ;
    }
    if divides(d, r as nat) {
        let kr = choose|k: nat| r as nat == #[trigger] (k * d);
        let k = (q * ky + kr) as nat;
        assert(x == k * d) by (nonlinear_arith)
            requires
                x == y * q + r,
                y == ky * d,
                r == kr * d,
                k == q * ky + kr,
        ;
    }
}

/// The greatest common divisor of the sizes of two numbers.
pub fn gcd(a: i32, b: i32) -> (g: u32)
    ensures
        is_gcd(size(a), size(b), g as nat),
{
    let mut x: u32 = if a < 0 {
        (-(a as i64)) as u32
    } else {
        a as u32
    };
    let mut y: u32 = if b < 0 {
        (-(b as i64)) as u32
    } else {
        b as u32
    };
    let ghost a0 = size(a);
    let ghost b0 = size(b);
    while y != 0
        invariant
            forall|d: nat| #[trigger] common(d, x as nat, y as nat) <==> common(d, a0, b0),
        decreases y,
    {
        let temp = y;
        let ghost x0 = x;
        let ghost y0 = y;
        y = x % y;
        x = temp;
        proof {
            assert forall|d: nat| #[trigger] common(d, x as nat, y as nat) <==> common(d, a0, b0) by {
                if divides(d, y0 as nat) {
                    lemma_divides_rem(d, x0 as nat, y0 as nat);
                }
                assert(common(d, x0 as nat, y0 as nat) <==> common(d, a0, b0));
            }
        }
    }
    proof {
        let g = x as nat;
        assert(divides(g, g)) by {
            assert(g == 1 * g);
        }
        assert(divides(g, 0)) by {
            assert(0 == 0 * g);
        }
        assert(common(g, x as nat, y as nat));
        assert(common(g, a0, b0));
        assert forall|d: nat| #[trigger] divides(d, a0) && divides(d, b0) implies divides(d, g) by {
            assert(common(d, a0, b0));
            assert(common(d, x as nat, y as nat));
        }
    }
    x
}


/// Whether a character is a letter or a digit of any script, as
/// `char::is_alphanumeric` tells.
pub uninterp spec fn alphanumeric(c: char) -> bool;

/// Whether a character is a letter or a digit, by `char::is_alphanumeric`.
#[verifier::external_body]
fn is_alphanumeric(c: char) -> (b: bool)
    ensures
        b == alphanumeric(c),
{
    c.is_alphanumeric()
}

/// An antenna: its column, its row and the character of its frequency.
pub type Antenna = (usize, usize, char);

/// What counts as an antenna: letters and digits of any script, or
/// everything but `'.'`.
pub open spec fn counts(c: char, any: bool) -> bool {
    if any {
        c != '.'
    } else {
        alphanumeric(c)
    }
}

/// The antennas among the first `n` characters of row `y`.
pub open spec fn row_antennas(row: Seq<char>, y: usize, n: int, any: bool) -> Seq<Antenna>
    decreases n,
{
    if n <= 0 {
        Seq::empty()
    } else if counts(row[n - 1], any) {
        row_antennas(row, y, n - 1, any).push(((n - 1) as usize, y, row[n - 1]))
    } else {
        row_antennas(row, y, n - 1, any)
    }
}

/// The antennas of the first `rows` rows of a map, in reading order.
pub open spec fn antennas_of(map: Seq<Seq<char>>, rows: int, any: bool) -> Seq<Antenna>
    decreases rows,
{
    if rows <= 0 {
        Seq::empty()
    } else {
        antennas_of(map, rows - 1, any) + row_antennas(
            map[rows - 1],
            (rows - 1) as usize,
            map[rows - 1].len() as int,
            any,
        )
    }
}

/// Finds the antennas of a map.
pub fn find_antennas(map: &Vec<Vec<char>>, any: bool) -> (list: Vec<Antenna>)
    ensures
        list@ == antennas_of(views(map@), map.len() as int, any),
{
    let ghost m = views(map@);
    let mut list: Vec<Antenna> = Vec::new();
    let mut y: usize = 0;
    while y < map.len()
        invariant
            y <= map.len(),
            m == views(map@),
            list@ == antennas_of(m, y as int, any),
        decreases map.len() - y,
    {
        let row = &map[y];
        assert(m[y as int] == row@);
        let ghost before = list@;
        let mut x: usize = 0;
        assert(list@ =~= before + row_antennas(row@, y, 0, any));
        while x < row.len()
            invariant
                x <= row.len(),
                list@ == before + row_antennas(row@, y, x as int, any),
            decreases row.len() - x,
        {
            let c = row[x];
            let keep = if any {
                c != '.'
            } else {
                is_alphanumeric(c)
            };
            if keep {
                list.push((x, y, c));
                assert(counts(row@[x + 1 - 1], any));
                assert(row_antennas(row@, y, x + 1, any) == row_antennas(row@, y, x as int, any).push((x, y, c)));
                assert(list@ =~= before + row_antennas(row@, y, x + 1, any));
            } else {
                assert(!counts(row@[x + 1 - 1], any));
                assert(row_antennas(row@, y, x + 1, any) == row_antennas(row@, y, x as int, any));
            }
            x += 1;
        }
        y += 1;
    }
    list
}

/// The point as far beyond `a` as `b` lies before it, on the line through
/// both.
pub open spec fn beyond(a: Antenna, b: Antenna) -> (int, int) {
    (2 * a.0 - b.0, 2 * a.1 - b.1)
}

/// `(x, y)` is an antinode: it lies on the line through two antennas of
/// the same frequency, as far beyond one of them as the other lies before
/// it.
pub open spec fn is_antinode(list: Seq<Antenna>, x: int, y: int) -> bool {
    exists|i: int, j: int| #[trigger] twice_as_far(list, i, j, x, y)
}

/// The `i`-th and the `j`-th antenna make an antinode at `(x, y)`.
pub open spec fn twice_as_far(list: Seq<Antenna>, i: int, j: int, x: int, y: int) -> bool {
    &&& 0 <= i < j < list.len()
    &&& list[i].2 == list[j].2
    &&& ((x, y) == beyond(list[i], list[j]) || (x, y) == beyond(list[j], list[i]))
}

/// Marks the antinodes of the antennas of a map: every point, among the
/// rows of the map and the first `cols` columns, that lies twice as far
/// from one antenna as from another of the same frequency, on the line
/// through both.
pub fn mark_antinodes(map: &Vec<Vec<char>>, cols: usize) -> (marks: Vec<Vec<bool>>)
    ensures
        shows(
            views(marks@),
            antennas_of(views(map@), map.len() as int, false),
            false,
            map.len() as int,
            cols as int,
        ),
{
    let rows = map.len();
    let antennas = find_antennas(map, false);
    let ghost list = antennas@;
    let mut marks = blank_marks(rows, cols);
    let mut i: usize = 0;
    while i < antennas.len()
        invariant
            i <= antennas.len(),
            list == antennas@,
            views(marks@).len() == rows,
            forall|y: int| 0 <= y < rows ==> (#[trigger] views(marks@)[y]).len() == cols,
            forall|x: int, y: int|
                0 <= y < rows && 0 <= x < cols ==> (#[trigger] views(marks@)[y][x] <==> exists|
                    a: int,
                    b: int,
                | a < i && #[trigger] twice_as_far(list, a, b, x, y)),
        decreases antennas.len() - i,
    {
        let mut j: usize = i + 1;
        while j < antennas.len()
            invariant
                i < j <= antennas.len(),
                list == antennas@,
                views(marks@).len() == rows,
                forall|y: int| 0 <= y < rows ==> (#[trigger] views(marks@)[y]).len() == cols,
                forall|x: int, y: int|
                    0 <= y < rows && 0 <= x < cols ==> (#[trigger] views(marks@)[y][x] <==> exists|
                        a: int,
                        b: int,
                    | (a < i || (a == i && b < j)) && #[trigger] twice_as_far(list, a, b, x, y)),
            decreases antennas.len() - j,
        {
            let p = antennas[i];
            let q = antennas[j];
            let ghost before = views(marks@);
            let (ax, ay): (i128, i128) = (2 * (p.0 as i128) - q.0 as i128, 2 * (p.1 as i128) - q.1 as i128);
            let (bx, by): (i128, i128) = (2 * (q.0 as i128) - p.0 as i128, 2 * (q.1 as i128) - p.1 as i128);
            if p.2 == q.2 {
                set_mark(&mut marks, ax, ay);
                set_mark(&mut marks, bx, by);
            }
            proof {
                let now = views(marks@);
                assert forall|x: int, y: int| 0 <= y < rows && 0 <= x < cols implies (
                #[trigger] now[y][x] <==> exists|a: int, b: int|
                    (a < i || (a == i && b < j + 1)) && #[trigger] twice_as_far(list, a, b, x, y)) by {
                    let here = p.2 == q.2 && ((x == ax && y == ay) || (x == bx && y == by));
                    assert(here <==> twice_as_far(list, i as int, j as int, x, y));
                    assert(now[y][x] <==> before[y][x] || here);
                    if before[y][x] {
                        let (a, b) = choose|a: int, b: int|
                            (a < i || (a == i && b < j)) && #[trigger] twice_as_far(list, a, b, x, y);
                        assert(twice_as_far(list, a, b, x, y));
                    }
                    if exists|a: int, b: int|
                        (a < i || (a == i && b < j + 1)) && #[trigger] twice_as_far(list, a, b, x, y) {
                        let (a, b) = choose|a: int, b: int|
                            (a < i || (a == i && b < j + 1)) && #[trigger] twice_as_far(list, a, b, x, y);
                        if !(a == i && b == j) {
                            assert(twice_as_far(list, a, b, x, y));
                        }
                    }
                }
            }
            j += 1;
        }
        proof {
            let now = views(marks@);
            assert forall|x: int, y: int| 0 <= y < rows && 0 <= x < cols implies (
            #[trigger] now[y][x] <==> exists|a: int, b: int|
                a < i + 1 && #[trigger] twice_as_far(list, a, b, x, y)) by {
                if now[y][x] {
                    let (a, b) = choose|a: int, b: int|
                        (a < i || (a == i && b < j)) && #[trigger] twice_as_far(list, a, b, x, y);
                    assert(twice_as_far(list, a, b, x, y));
                }
                if exists|a: int, b: int| a < i + 1 && #[trigger] twice_as_far(list, a, b, x, y) {
                    let (a, b) = choose|a: int, b: int|
                        a < i + 1 && #[trigger] twice_as_far(list, a, b, x, y);
                    assert(twice_as_far(list, a, b, x, y));
                }
            }
        }
        i += 1;
    }
    proof {
        let now = views(marks@);
        assert forall|x: int, y: int| 0 <= y < rows && 0 <= x < cols implies (#[trigger] now[y][x]
            <==> is_antinode(list, x, y)) by {
            if now[y][x] {
                let (a, b) = choose|a: int, b: int| a < i && #[trigger] twice_as_far(list, a, b, x, y);
                assert(twice_as_far(list, a, b, x, y));
            }
            if is_antinode(list, x, y) {
                let (a, b) = choose|a: int, b: int| #[trigger] twice_as_far(list, a, b, x, y);
                assert(a < i && twice_as_far(list, a, b, x, y));
            }
        }
    }
    marks
}

/// The size of an integer.
pub open spec fn magnitude(d: int) -> nat {
    if d < 0 {
        (-d) as nat
    } else {
        d as nat
    }
}

/// One step along `d` when `d` is cut into pieces of size `g`.
pub open spec fn unit_step(d: int, g: int) -> int {
    if d < 0 {
        -((-d) / g)
    } else {
        d / g
    }
}

/// The smallest step between grid points on the line from `p` to `q`: the
/// difference of the two, divided by the greatest common divisor of its
/// parts. The step is `(0, 0)` where the two stand at the same place.
pub open spec fn line_step(p: Antenna, q: Antenna, g: int) -> (int, int) {
    (unit_step(q.0 - p.0, g), unit_step(q.1 - p.1, g))
}

/// `g` is the greatest common divisor of the parts of the difference of
/// `p` and `q`.
pub open spec fn is_pace(p: Antenna, q: Antenna, g: int) -> bool {
    g >= 0 && is_gcd(magnitude(q.0 - p.0), magnitude(q.1 - p.1), g as nat)
}

/// The point `k` steps from `p`.
pub open spec fn point_at(p: Antenna, step: (int, int), k: int) -> (int, int) {
    (p.0 + k * step.0, p.1 + k * step.1)
}

/// `(x, y)` is a cell of a grid of `rows` by `cols` cells.
pub open spec fn in_box(at: (int, int), rows: int, cols: int) -> bool {
    0 <= at.0 < cols && 0 <= at.1 < rows
}

/// Walking from `p` in steps, backwards from `p` itself or forwards from
/// the point after it, point `k` is reached without leaving the grid.
pub open spec fn reached(p: Antenna, step: (int, int), k: int, rows: int, cols: int) -> bool {
    if k <= 0 {
        forall|t: int| k <= t <= 0 ==> in_box(#[trigger] point_at(p, step, t), rows, cols)
    } else {
        forall|t: int| 1 <= t <= k ==> in_box(#[trigger] point_at(p, step, t), rows, cols)
    }
}

/// `(x, y)` is reached on the line from `p` to `q`.
pub open spec fn on_line(p: Antenna, q: Antenna, rows: int, cols: int, x: int, y: int) -> bool {
    exists|g: int, k: int| #[trigger] lands(p, q, g, k, rows, cols, x, y)
}

/// Point `k` of the line from `p` to `q` is `(x, y)`, and is reached.
pub open spec fn lands(p: Antenna, q: Antenna, g: int, k: int, rows: int, cols: int, x: int, y: int) -> bool {
    &&& g > 0
    &&& is_pace(p, q, g)
    &&& point_at(p, line_step(p, q, g), k) == (x, y)
    &&& reached(p, line_step(p, q, g), k, rows, cols)
}

/// The `i`-th and the `j`-th antenna have the same frequency and `(x, y)`
/// is reached on the line from the one to the other.
pub open spec fn in_tune(list: Seq<Antenna>, i: int, j: int, rows: int, cols: int, x: int, y: int) -> bool {
    &&& 0 <= i < j < list.len()
    &&& list[i].2 == list[j].2
    &&& on_line(list[i], list[j], rows, cols, x, y)
}

/// `(x, y)` is an antinode once resonance counts: it is a grid point
/// reached on the line through two antennas of the same frequency.
pub open spec fn is_resonant(list: Seq<Antenna>, rows: int, cols: int, x: int, y: int) -> bool {
    exists|i: int, j: int| #[trigger] in_tune(list, i, j, rows, cols, x, y)
}

/// Whether `(x, y)` is an antinode, with or without resonance.
pub open spec fn spot(list: Seq<Antenna>, resonant: bool, rows: int, cols: int, x: int, y: int) -> bool {
    if resonant {
        is_resonant(list, rows, cols, x, y)
    } else {
        is_antinode(list, x, y)
    }
}

/// How many cells of row `y` before column `bound` are antinodes.
pub open spec fn spots_in_row(
    list: Seq<Antenna>,
    resonant: bool,
    rows: int,
    cols: int,
    y: int,
    bound: int,
) -> nat
    decreases bound,
{
    if bound <= 0 {
        0
    } else {
        spots_in_row(list, resonant, rows, cols, y, bound - 1) + if spot(
            list,
            resonant,
            rows,
            cols,
            bound - 1,
            y,
        ) {
            1nat
        } else {
            0nat
        }
    }
}

/// How many cells of the rows before `bound` are antinodes.
pub open spec fn spots(list: Seq<Antenna>, resonant: bool, rows: int, cols: int, bound: int) -> nat
    decreases bound,
{
    if bound <= 0 {
        0
    } else {
        spots(list, resonant, rows, cols, bound - 1) + spots_in_row(
            list,
            resonant,
            rows,
            cols,
            bound - 1,
            cols,
        )
    }
}

/// The marks show the antinodes of a list of antennas on a grid of `rows`
/// by `cols` cells.
pub open spec fn shows(marks: Seq<Seq<bool>>, list: Seq<Antenna>, resonant: bool, rows: int, cols: int) -> bool {
    &&& marks.len() == rows
    &&& forall|y: int| 0 <= y < rows ==> (#[trigger] marks[y]).len() == cols
    &&& forall|x: int, y: int|
        0 <= y < rows && 0 <= x < cols ==> (#[trigger] marks[y][x] <==> spot(list, resonant, rows, cols, x, y))
}

proof fn lemma_row_shows(marks: Seq<Seq<bool>>, list: Seq<Antenna>, resonant: bool, rows: int, cols: int, y: int, bound: int)
    requires
        shows(marks, list, resonant, rows, cols),
        0 <= y < rows,
        0 <= bound <= cols,
    ensures
        marked_in_row(marks, y, bound) == spots_in_row(list, resonant, rows, cols, y, bound),
    decreases bound,
{
    if bound > 0 {
        lemma_row_shows(marks, list, resonant, rows, cols, y, bound - 1);
        assert(marks[y][bound - 1] <==> spot(list, resonant, rows, cols, bound - 1, y));
    }
}

proof fn lemma_rows_show(marks: Seq<Seq<bool>>, list: Seq<Antenna>, resonant: bool, rows: int, cols: int, bound: int)
    requires
        shows(marks, list, resonant, rows, cols),
        0 <= bound <= rows,
    ensures
        marked_in_rows(marks, bound) == spots(list, resonant, rows, cols, bound),
    decreases bound,
{
    if bound > 0 {
        lemma_rows_show(marks, list, resonant, rows, cols, bound - 1);
        assert(marks[bound - 1].len() == cols);
        lemma_row_shows(marks, list, resonant, rows, cols, bound - 1, cols);
    }
}

/// The number of columns of the first row of a map, 0 for a map without
/// rows.
pub open spec fn first_width(map: Seq<Seq<char>>) -> int {
    if map.len() > 0 {
        map[0].len() as int
    } else {
        0
    }
}

/// How many bytes a character takes in UTF-8.
pub open spec fn utf8_len(c: char) -> int {
    if (c as u32) < 0x80 {
        1
    } else if (c as u32) < 0x800 {
        2
    } else if (c as u32) < 0x1_0000 {
        3
    } else {
        4
    }
}

/// How many bytes the first `n` characters of a row take in UTF-8.
pub open spec fn byte_width(row: Seq<char>, n: int) -> int
    decreases n,
{
    if n <= 0 {
        0
    } else {
        byte_width(row, n - 1) + utf8_len(row[n - 1])
    }
}

/// The number of bytes of the first row of a map, 0 for a map without
/// rows.
pub open spec fn first_bytes(map: Seq<Seq<char>>) -> int {
    if map.len() > 0 {
        byte_width(map[0], map[0].len() as int)
    } else {
        0
    }
}

/// How many bytes a row takes in UTF-8, where a `usize` holds the number.
pub fn width_in_bytes(row: &Vec<char>) -> (w: Option<usize>)
    ensures
        w.is_some() <==> byte_width(row@, row.len() as int) <= usize::MAX,
        w.is_some() ==> w.unwrap() == byte_width(row@, row.len() as int),
{
    let mut total: u128 = 0;
    let mut i: usize = 0;
    while i < row.len()
        invariant
            i <= row.len(),
            total == byte_width(row@, i as int),
            total <= 4 * i,
        decreases row.len() - i,
    {
        let c = row[i];
        let n: u32 = c as u32;
        let len: u128 = if n < 0x80 {
            1
        } else if n < 0x800 {
            2
        } else if n < 0x1_0000 {
            3
        } else {
            4
        };
        assert(len == utf8_len(row@[i + 1 - 1]));
        total += len;
        i += 1;
    }
    if total <= usize::MAX as u128 {
        Some(total as usize)
    } else {
        None
    }
}

/// How many points of the map are antinodes: the cells that lie on the
/// line through two antennas of the same frequency, twice as far from the
/// one as from the other. Antennas are the letters and digits of the map.
/// An antenna's column is its place among the characters of its row; the
/// map has as many columns as its first row has bytes. `None` where that
/// number is beyond `usize`.
pub fn count_antinodes(map: &Vec<Vec<char>>) -> (n: Option<u128>)
    ensures
        n.is_some() <==> first_bytes(views(map@)) <= usize::MAX,
        n.is_some() ==> n.unwrap() == spots(
            antennas_of(views(map@), map.len() as int, false),
            false,
            map.len() as int,
            first_bytes(views(map@)),
            map.len() as int,
        ),
{
    proof {
        if map.len() > 0 {
            assert(views(map@)[0] == map@[0]@);
        }
    }
    let cols = if map.len() > 0 {
        match width_in_bytes(&map[0]) {
            Some(w) => w,
            None => {
                return None;
            },
        }
    } else {
        0
    };
    let marks = mark_antinodes(map, cols);
    proof {
        lemma_rows_show(
            views(marks@),
            antennas_of(views(map@), map.len() as int, false),
            false,
            map.len() as int,
            cols as int,
            map.len() as int,
        );
    }
    Some(count_marks(&marks, cols))
}

/// Two numbers have one greatest common divisor.
pub proof fn lemma_gcd_unique(a: nat, b: nat, g: nat, h: nat)
    requires
        is_gcd(a, b, g),
        is_gcd(a, b, h),
    ensures
        g == h,
{
    assert(divides(h, a) && divides(h, b));
    assert(divides(h, g));
    assert(divides(g, a) && divides(g, b));
    assert(divides(g, h));
    let k1 = choose|k: nat| g == #[trigger] (k * h);
    let k2 = choose|k: nat| h == #[trigger] (k * g);
    assert(g == h) by (nonlinear_arith)
        requires
            g == k1 * h,
            h == k2 * g,
    {
        if g == 0 {
            assert(h == 0);
        } else if h == 0 {
            assert(g == 0);
        } else {
            assert(k1 >= 1 && k2 >= 1);
            assert(g >= h);
            assert(h >= g);
        }
    }
}

/// Some step `t` with `lo < t <= hi` from `p` is the point `(x, y)`.
pub open spec fn passed(p: Antenna, step: (int, int), lo: int, hi: int, x: int, y: int) -> bool {
    exists|t: int| lo < t <= hi && #[trigger] point_at(p, step, t) == (x, y)
}

/// A coordinate that fits a signed 32-bit number.
pub const FAR: usize = 0x7fff_ffff;

/// Marks the points reached on the line from `p` to `q`.
pub fn mark_line(marks: &mut Vec<Vec<bool>>, p: Antenna, q: Antenna, rows: usize, cols: usize)
    requires
        views(old(marks)@).len() == rows,
        forall|y: int| 0 <= y < rows ==> (#[trigger] views(old(marks)@)[y]).len() == cols,
        p.0 <= FAR && p.1 <= FAR && q.0 <= FAR && q.1 <= FAR,
    ensures
        views(final(marks)@).len() == rows,
        forall|y: int| 0 <= y < rows ==> (#[trigger] views(final(marks)@)[y]).len() == cols,
        forall|x: int, y: int|
            0 <= y < rows && 0 <= x < cols ==> (#[trigger] views(final(marks)@)[y][x] <==> views(
                old(marks)@,
            )[y][x] || on_line(p, q, rows as int, cols as int, x, y)),
{
    let ghost before = views(marks@);
    let dx: i64 = q.0 as i64 - p.0 as i64;
    let dy: i64 = q.1 as i64 - p.1 as i64;
    let g = gcd(dx as i32, dy as i32);
    assert(size(dx as i32) == magnitude(dx as int));
    assert(size(dy as i32) == magnitude(dy as int));
    assert(is_pace(p, q, g as int));
    if g == 0 {
        proof {
            assert forall|x: int, y: int| !on_line(p, q, rows as int, cols as int, x, y) by {
                if on_line(p, q, rows as int, cols as int, x, y) {
                    let (h, k) = choose|h: int, k: int|
                        #[trigger] lands(p, q, h, k, rows as int, cols as int, x, y);
                    lemma_gcd_unique(magnitude(dx as int), magnitude(dy as int), g as nat, h as nat);
                }
            }
        }
        return ;
    }
    let ux: u32 = (if dx < 0 {
        (-dx) as u32
    } else {
        dx as u32
    }) / g;
    let uy: u32 = (if dy < 0 {
        (-dy) as u32
    } else {
        dy as u32
    }) / g;
    let sx: i128 = if dx < 0 {
        -(ux as i128)
    } else {
        ux as i128
    };
    let sy: i128 = if dy < 0 {
        -(uy as i128)
    } else {
        uy as i128
    };
    let ghost step = (sx as int, sy as int);
    proof {
        assert(step == line_step(p, q, g as int));
        if sx == 0 && sy == 0 {
            lemma_small_is_zero(magnitude(dx as int), g as nat);
            lemma_small_is_zero(magnitude(dy as int), g as nat);
            assert(divides(0, 0)) by {
                assert(0 == 0nat * 0nat);
            }
            assert(divides(0nat, magnitude(dx as int)) && divides(0nat, magnitude(dy as int)));
            assert(divides(0, g as nat));
            let k = choose|k: nat| g as nat == #[trigger] (k * 0nat);
            assert(k * 0nat == 0) by (nonlinear_arith);
        }
    }
    let mut x: i128 = p.0 as i128;
    let mut y: i128 = p.1 as i128;
    let ghost mut k: int = 0;
    assert(0 * step.0 == 0 && 0 * step.1 == 0);
    while 0 <= x && x < cols as i128 && 0 <= y && y < rows as i128
        invariant
            k <= 0,
            (x as int, y as int) == point_at(p, step, k),
            step == (sx as int, sy as int),
            sx != 0 || sy != 0,
            -0x1_0000_0000 <= sx <= 0x1_0000_0000,
            -0x1_0000_0000 <= sy <= 0x1_0000_0000,
            -0x2_0000_0000 <= x <= 0x1_0000_0002_0000_0000,
            -0x2_0000_0000 <= y <= 0x1_0000_0002_0000_0000,
            forall|t: int| k < t <= 0 ==> in_box(#[trigger] point_at(p, step, t), rows as int, cols as int),
            views(marks@).len() == rows,
            forall|r: int| 0 <= r < rows ==> (#[trigger] views(marks@)[r]).len() == cols,
            forall|cx: int, cy: int|
                0 <= cy < rows && 0 <= cx < cols ==> (#[trigger] views(marks@)[cy][cx] <==> before[cy][cx]
                    || passed(p, step, k, 0, cx, cy)),
        decreases
                if !(0 <= x < cols && 0 <= y < rows) {
                    0
                } else if sx > 0 {
                    x + 1
                } else if sx < 0 {
                    cols - x
                } else if sy > 0 {
                    y + 1
                } else {
                    rows - y
                },
    {
        let ghost mid = views(marks@);
        set_mark(marks, x, y);
        proof {
            let now = views(marks@);
            assert((k - 1) * step.0 == k * step.0 - step.0) by (nonlinear_arith);
            assert((k - 1) * step.1 == k * step.1 - step.1) by (nonlinear_arith);
            assert forall|cx: int, cy: int| 0 <= cy < rows && 0 <= cx < cols implies (
            #[trigger] now[cy][cx] <==> before[cy][cx] || passed(p, step, k - 1, 0, cx, cy)) by {
                assert(now[cy][cx] <==> mid[cy][cx] || (cx == x && cy == y));
                if passed(p, step, k, 0, cx, cy) {
                    let t = choose|t: int| k < t <= 0 && #[trigger] point_at(p, step, t) == (cx, cy);
                    assert(k - 1 < t <= 0 && point_at(p, step, t) == (cx, cy));
                }
                if cx == x && cy == y {
                    assert(k - 1 < k <= 0 && point_at(p, step, k) == (cx, cy));
                }
                if passed(p, step, k - 1, 0, cx, cy) {
                    let t = choose|t: int| k - 1 < t <= 0 && #[trigger] point_at(p, step, t) == (cx, cy);
                    if t != k {
                        assert(k < t <= 0 && point_at(p, step, t) == (cx, cy));
                    }
                }
            }
            k = k - 1;
        }
        x -= sx;
        y -= sy;
    }
    let ghost low = k;
    let ghost half = views(marks@);
    x = p.0 as i128 + sx;
    y = p.1 as i128 + sy;
    proof {
        k = 1;
        assert(1 * step.0 == step.0 && 1 * step.1 == step.1);
    }
    while 0 <= x && x < cols as i128 && 0 <= y && y < rows as i128
        invariant
            k >= 1,
            (x as int, y as int) == point_at(p, step, k),
            step == (sx as int, sy as int),
            sx != 0 || sy != 0,
            -0x1_0000_0000 <= sx <= 0x1_0000_0000,
            -0x1_0000_0000 <= sy <= 0x1_0000_0000,
            -0x2_0000_0000 <= x <= 0x1_0000_0002_0000_0000,
            -0x2_0000_0000 <= y <= 0x1_0000_0002_0000_0000,
            forall|t: int| 1 <= t < k ==> in_box(#[trigger] point_at(p, step, t), rows as int, cols as int),
            views(marks@).len() == rows,
            forall|r: int| 0 <= r < rows ==> (#[trigger] views(marks@)[r]).len() == cols,
            forall|cx: int, cy: int|
                0 <= cy < rows && 0 <= cx < cols ==> (#[trigger] views(marks@)[cy][cx] <==> half[cy][cx]
                    || passed(p, step, 0, k - 1, cx, cy)),
        decreases
                if !(0 <= x < cols && 0 <= y < rows) {
                    0
                } else if sx < 0 {
                    x + 1
                } else if sx > 0 {
                    cols - x
                } else if sy < 0 {
                    y + 1
                } else {
                    rows - y
                },
    {
        let ghost mid = views(marks@);
        set_mark(marks, x, y);
        proof {
            let now = views(marks@);
            assert((k + 1) * step.0 == k * step.0 + step.0) by (nonlinear_arith);
            assert((k + 1) * step.1 == k * step.1 + step.1) by (nonlinear_arith);
            assert forall|cx: int, cy: int| 0 <= cy < rows && 0 <= cx < cols implies (
            #[trigger] now[cy][cx] <==> half[cy][cx] || passed(p, step, 0, k, cx, cy)) by {
                assert(now[cy][cx] <==> mid[cy][cx] || (cx == x && cy == y));
                if passed(p, step, 0, k - 1, cx, cy) {
                    let t = choose|t: int| 0 < t <= k - 1 && #[trigger] point_at(p, step, t) == (cx, cy);
                    assert(0 < t <= k && point_at(p, step, t) == (cx, cy));
                }
                if cx == x && cy == y {
                    assert(0 < k <= k && point_at(p, step, k) == (cx, cy));
                }
                if passed(p, step, 0, k, cx, cy) {
                    let t = choose|t: int| 0 < t <= k && #[trigger] point_at(p, step, t) == (cx, cy);
                    if t != k {
                        assert(0 < t <= k - 1 && point_at(p, step, t) == (cx, cy));
                    }
                }
            }
            k = k + 1;
        }
        x += sx;
        y += sy;
    }
    proof {
        let now = views(marks@);
        let high = k;
        let (r, c) = (rows as int, cols as int);
        assert forall|cx: int, cy: int| 0 <= cy < rows && 0 <= cx < cols implies (#[trigger] now[cy][cx]
            <==> before[cy][cx] || on_line(p, q, r, c, cx, cy)) by {
            assert(now[cy][cx] <==> before[cy][cx] || passed(p, step, low, 0, cx, cy) || passed(
                p,
                step,
                0,
                high - 1,
                cx,
                cy,
            ));
            if passed(p, step, low, 0, cx, cy) {
                let t = choose|t: int| low < t <= 0 && #[trigger] point_at(p, step, t) == (cx, cy);
                assert(reached(p, step, t, r, c));
                assert(lands(p, q, g as int, t, r, c, cx, cy));
            }
            if passed(p, step, 0, high - 1, cx, cy) {
                let t = choose|t: int| 0 < t <= high - 1 && #[trigger] point_at(p, step, t) == (cx, cy);
                assert(reached(p, step, t, r, c));
                assert(lands(p, q, g as int, t, r, c, cx, cy));
            }
            if on_line(p, q, r, c, cx, cy) {
                let (h, t) = choose|h: int, t: int| #[trigger] lands(p, q, h, t, r, c, cx, cy);
                lemma_gcd_unique(magnitude(dx as int), magnitude(dy as int), g as nat, h as nat);
                assert(reached(p, step, t, r, c));
                if t <= 0 {
                    if t <= low {
                        assert(in_box(point_at(p, step, low), r, c));
                    }
                    assert(low < t <= 0 && point_at(p, step, t) == (cx, cy));
                } else {
                    if t >= high {
                        assert(in_box(point_at(p, step, high), r, c));
                    }
                    assert(0 < t <= high - 1 && point_at(p, step, t) == (cx, cy));
                }
            }
        }
    }
}

/// Between two points of a walk that are on the grid, every point is on
/// the grid.
proof fn lemma_between(p: Antenna, step: (int, int), k: int, t: int, rows: int, cols: int)
    requires
        in_box((p.0 as int, p.1 as int), rows, cols),
        in_box(point_at(p, step, k), rows, cols),
        (k <= t <= 0) || (0 <= t <= k),
    ensures
        in_box(point_at(p, step, t), rows, cols),
{
    let (a, b) = step;
    assert((0 <= t * a <= k * a) || (k * a <= t * a <= 0)) by (nonlinear_arith)
        requires
            (k <= t <= 0) || (0 <= t <= k),
    ;
    assert((0 <= t * b <= k * b) || (k * b <= t * b <= 0)) by (nonlinear_arith)
        requires
            (k <= t <= 0) || (0 <= t <= k),
    ;
}

/// A walk that starts on the grid reaches exactly the points of its line
/// that are on the grid.
pub proof fn lemma_reached_on_grid(p: Antenna, step: (int, int), k: int, rows: int, cols: int)
    requires
        in_box((p.0 as int, p.1 as int), rows, cols),
    ensures
        reached(p, step, k, rows, cols) <==> in_box(point_at(p, step, k), rows, cols),
{
    if in_box(point_at(p, step, k), rows, cols) {
        assert forall|t: int| (k <= t <= 0) || (1 <= t <= k) implies in_box(
            #[trigger] point_at(p, step, t),
            rows,
            cols,
        ) by {
            lemma_between(p, step, k, t, rows, cols);
        }
    }
    if reached(p, step, k, rows, cols) {
        if k <= 0 {
            assert(k <= k <= 0);
        } else {
            assert(1 <= k <= k);
        }
        assert(in_box(point_at(p, step, k), rows, cols));
    }
}

/// A number that `g` divides and whose quotient by `g` is 0 is 0.
proof fn lemma_small_is_zero(a: nat, g: nat)
    requires
        g > 0,
        divides(g, a),
        a / g == 0,
    ensures
        a == 0,
{
    let k = choose|k: nat| a == #[trigger] (k * g);
    vstd::arithmetic::div_mod::lemma_fundamental_div_mod(a as int, g as int);
    vstd::arithmetic::div_mod::lemma_mod_bound(a as int, g as int);
    assert(a == 0) by (nonlinear_arith)
        requires
            a == k * g,
            a < g,
            g > 0,
    ;
}

/// A letter or a digit of the basic Latin alphabet.
pub open spec fn plain(c: char) -> bool {
    ('0' <= c && c <= '9') || ('A' <= c && c <= 'Z') || ('a' <= c && c <= 'z')
}

/// Every antenna of the list has a plain frequency and stands where
/// signed 32-bit coordinates reach.
pub open spec fn tidy(list: Seq<Antenna>) -> bool {
    forall|i: int|
        0 <= i < list.len() ==> plain((#[trigger] list[i]).2) && list[i].0 <= FAR && list[i].1 <= FAR
}

/// Whether every antenna of the list is tidy.
pub fn check_tidy(list: &Vec<Antenna>) -> (b: bool)
    ensures
        b == tidy(list@),
{
    let mut i: usize = 0;
    while i < list.len()
        invariant
            i <= list.len(),
            forall|k: int|
                0 <= k < i ==> plain((#[trigger] list@[k]).2) && list@[k].0 <= FAR && list@[k].1 <= FAR,
        decreases list.len() - i,
    {
        let (x, y, c) = list[i];
        let fine = ('0' <= c && c <= '9') || ('A' <= c && c <= 'Z') || ('a' <= c && c <= 'z');
        if !fine || x > FAR || y > FAR {
            return false;
        }
        i += 1;
    }
    true
}

/// How many points of the map are antinodes once resonance counts: the
/// cells, among the columns of the first row, reached on the line through
/// two antennas of the same frequency, walking from the first of the two
/// in the smallest steps between grid points, backwards from the antenna
/// itself and forwards from the point after it, as long as the walk is on
/// the grid. Everything but `'.'` is an antenna. `None` where an antenna
/// is no plain letter or digit, or stands too far out.
pub fn count_resonant_antinodes(map: &Vec<Vec<char>>) -> (n: Option<u128>)
    ensures
        n.is_some() <==> tidy(antennas_of(views(map@), map.len() as int, true)),
        n.is_some() ==> n.unwrap() == spots(
            antennas_of(views(map@), map.len() as int, true),
            true,
            map.len() as int,
            first_width(views(map@)),
            map.len() as int,
        ),
{
    let rows = map.len();
    let cols = if rows > 0 {
        map[0].len()
    } else {
        0
    };
    proof {
        if map.len() > 0 {
            assert(views(map@)[0] == map@[0]@);
        }
    }
    let antennas = find_antennas(map, true);
    if !check_tidy(&antennas) {
        return None;
    }
    let ghost list = antennas@;
    let ghost (r, c) = (rows as int, cols as int);
    let mut marks = blank_marks(rows, cols);
    let mut i: usize = 0;
    while i < antennas.len()
        invariant
            i <= antennas.len(),
            list == antennas@,
            tidy(list),
            r == rows && c == cols,
            views(marks@).len() == rows,
            forall|y: int| 0 <= y < rows ==> (#[trigger] views(marks@)[y]).len() == cols,
            forall|x: int, y: int|
                0 <= y < rows && 0 <= x < cols ==> (#[trigger] views(marks@)[y][x] <==> exists|
                    a: int,
                    b: int,
                | a < i && #[trigger] in_tune(list, a, b, r, c, x, y)),
        decreases antennas.len() - i,
    {
        let mut j: usize = i + 1;
        while j < antennas.len()
            invariant
                i < j <= antennas.len(),
                list == antennas@,
                tidy(list),
                r == rows && c == cols,
                views(marks@).len() == rows,
                forall|y: int| 0 <= y < rows ==> (#[trigger] views(marks@)[y]).len() == cols,
                forall|x: int, y: int|
                    0 <= y < rows && 0 <= x < cols ==> (#[trigger] views(marks@)[y][x] <==> exists|
                        a: int,
                        b: int,
                    | (a < i || (a == i && b < j)) && #[trigger] in_tune(list, a, b, r, c, x, y)),
            decreases antennas.len() - j,
        {
            let p = antennas[i];
            let q = antennas[j];
            let ghost before = views(marks@);
            if p.2 == q.2 {
                mark_line(&mut marks, p, q, rows, cols);
            }
            proof {
                let now = views(marks@);
                assert forall|x: int, y: int| 0 <= y < rows && 0 <= x < cols implies (
                #[trigger] now[y][x] <==> exists|a: int, b: int|
                    (a < i || (a == i && b < j + 1)) && #[trigger] in_tune(list, a, b, r, c, x, y)) by {
                    let here = p.2 == q.2 && on_line(p, q, r, c, x, y);
                    assert(here <==> in_tune(list, i as int, j as int, r, c, x, y));
                    assert(now[y][x] <==> before[y][x] || here);
                    if before[y][x] {
                        let (a, b) = choose|a: int, b: int|
                            (a < i || (a == i && b < j)) && #[trigger] in_tune(list, a, b, r, c, x, y);
                        assert(in_tune(list, a, b, r, c, x, y));
                    }
                    if exists|a: int, b: int|
                        (a < i || (a == i && b < j + 1)) && #[trigger] in_tune(list, a, b, r, c, x, y) {
                        let (a, b) = choose|a: int, b: int|
                            (a < i || (a == i && b < j + 1)) && #[trigger] in_tune(
                                list,
                                a,
                                b,
                                r,
                                c,
                                x,
                                y,
                            );
                        if !(a == i && b == j) {
                            assert(in_tune(list, a, b, r, c, x, y));
                        }
                    }
                }
            }
            j += 1;
        }
        proof {
            let now = views(marks@);
            assert forall|x: int, y: int| 0 <= y < rows && 0 <= x < cols implies (
            #[trigger] now[y][x] <==> exists|a: int, b: int|
                a < i + 1 && #[trigger] in_tune(list, a, b, r, c, x, y)) by {
                if now[y][x] {
                    let (a, b) = choose|a: int, b: int|
                        (a < i || (a == i && b < j)) && #[trigger] in_tune(list, a, b, r, c, x, y);
                    assert(in_tune(list, a, b, r, c, x, y));
                }
                if exists|a: int, b: int| a < i + 1 && #[trigger] in_tune(list, a, b, r, c, x, y) {
                    let (a, b) = choose|a: int, b: int|
                        a < i + 1 && #[trigger] in_tune(list, a, b, r, c, x, y);
                    assert(in_tune(list, a, b, r, c, x, y));
                }
            }
        }
        i += 1;
    }
    proof {
        let now = views(marks@);
        assert forall|x: int, y: int| 0 <= y < rows && 0 <= x < cols implies (#[trigger] now[y][x]
            <==> is_resonant(list, r, c, x, y)) by {
            if now[y][x] {
                let (a, b) = choose|a: int, b: int| a < i && #[trigger] in_tune(list, a, b, r, c, x, y);
                assert(in_tune(list, a, b, r, c, x, y));
            }
            if is_resonant(list, r, c, x, y) {
                let (a, b) = choose|a: int, b: int| #[trigger] in_tune(list, a, b, r, c, x, y);
                assert(a < i && in_tune(list, a, b, r, c, x, y));
            }
        }
        assert(shows(now, list, true, r, c));
        lemma_rows_show(now, list, true, r, c, r);
    }
    Some(count_marks(&marks, cols))
}

} // verus!
