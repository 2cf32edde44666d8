//! Garden plots: regions of the same plant, their areas and the fences
//! round them.

use vstd::prelude::*;
use crate::lattice::{beside, is_trail, is_trail_to, no_trail, wanted, Lattice, Spread};
use crate::maze::grid::rectangular;
use crate::maze::heading::Direction;
use crate::maze::table::{lemma_slot_in_range, lemma_slot_injective, slot, Quad};
use crate::text::views;
use crate::wordsearch::letter;

verus! {

/// The plant at column `x` of row `y`, if the map has a plot there.
pub open spec fn plant(map: Seq<Seq<char>>, x: int, y: int) -> Option<char> {
    if 0 <= y < map.len() && 0 <= x < map[y].len() {
        Some(map[y][x])
    } else {
        None
    }
}

/// The neighbour of the plot `a` in the heading `d` grows the same plant.
pub open spec fn same_plant(map: Seq<Seq<char>>, a: (usize, usize), d: Direction) -> bool {
    plant(map, a.0 as int, a.1 as int) is Some && plant(map, beside(a, d).0, beside(a, d).1) == plant(
        map,
        a.0 as int,
        a.1 as int,
    )
}

/// The plot `b` is a neighbour of the plot `a` and grows the same plant.
pub open spec fn grows_on(map: Seq<Seq<char>>, a: (usize, usize), b: (usize, usize)) -> bool {
    exists|d: Direction| #[trigger] same_plant(map, a, d) && beside(a, d) == (b.0 as int, b.1 as int)
}

/// The step from the `i`-th plot of `p` to the next stays on the plant.
pub open spec fn bed_step(map: Seq<Seq<char>>, p: Seq<(usize, usize)>, i: int) -> bool {
    grows_on(map, p[i], p[i + 1])
}

/// A sequence of plots of one plant, each a neighbour of the one before.
pub open spec fn is_bed_path(map: Seq<Seq<char>>, p: Seq<(usize, usize)>) -> bool {
    &&& p.len() > 0
    &&& plant(map, p[0].0 as int, p[0].1 as int) is Some
    &&& forall|i: int| 0 <= i < p.len() - 1 ==> #[trigger] bed_step(map, p, i)
}

/// The plot `c` belongs to the region of the plot `s`.
pub open spec fn in_region(map: Seq<Seq<char>>, s: (usize, usize), c: (usize, usize)) -> bool {
    exists|p: Seq<(usize, usize)>| #[trigger] is_bed_path(map, p) && p[0] == s && p.last() == c
}

/// How many sides of a plot need a fence: those without a neighbour of the
/// same plant.
pub open spec fn fence(map: Seq<Seq<char>>, a: (usize, usize)) -> nat {
    let n: nat = if same_plant(map, a, Direction::North) { 0 } else { 1 };
    let e: nat = if same_plant(map, a, Direction::East) { 0 } else { 1 };
    let s: nat = if same_plant(map, a, Direction::South) { 0 } else { 1 };
    let w: nat = if same_plant(map, a, Direction::West) { 0 } else { 1 };
    n + e + s + w
}

/// What the plots of the region of `s` in row `y` before column `bound`
/// add up to: their number, or the number of their fences.
pub open spec fn region_row(map: Seq<Seq<char>>, s: (usize, usize), y: int, bound: int, fenced: bool) -> nat
    decreases bound,
{
    if bound <= 0 {
        0
    } else {
        region_row(map, s, y, bound - 1, fenced) + if in_region(map, s, ((bound - 1) as usize, y as usize)) {
            if fenced {
                fence(map, ((bound - 1) as usize, y as usize))
            } else {
                1
            }
        } else {
            0
        }
    }
}

/// What the plots of the region of `s` in the rows before `bound` add up
/// to.
pub open spec fn region_rows(map: Seq<Seq<char>>, s: (usize, usize), bound: int, fenced: bool) -> nat
    decreases bound,
{
    if bound <= 0 {
        0
    } else {
        region_rows(map, s, bound - 1, fenced) + region_row(
            map,
            s,
            bound - 1,
            map[bound - 1].len() as int,
            fenced,
        )
    }
}

/// The plot `s` is the first of its region in reading order.
pub open spec fn is_seed(map: Seq<Seq<char>>, s: (usize, usize)) -> bool {
    &&& plant(map, s.0 as int, s.1 as int) is Some
    &&& forall|e: (usize, usize)|
        crate::lattice::earlier(e.0 as int, e.1 as int, s.0 as int, s.1 as int) ==> !#[trigger] in_region(
            map,
            e,
            s,
        )
}

/// The price of the region of `s`: its area times its perimeter.
pub open spec fn region_price(map: Seq<Seq<char>>, s: (usize, usize)) -> nat {
    region_rows(map, s, map.len() as int, false) * region_rows(map, s, map.len() as int, true)
}

/// The prices of the regions whose first plot lies in row `y` before
/// column `bound`.
pub open spec fn price_row(map: Seq<Seq<char>>, y: int, bound: int) -> nat
    decreases bound,
{
    if bound <= 0 {
        0
    } else {
        price_row(map, y, bound - 1) + if is_seed(map, ((bound - 1) as usize, y as usize)) {
            region_price(map, ((bound - 1) as usize, y as usize))
        } else {
            0
        }
    }
}

/// The prices of the regions whose first plot lies in a row before
/// `bound`.
pub open spec fn price_rows(map: Seq<Seq<char>>, bound: int) -> nat
    decreases bound,
{
    if bound <= 0 {
        0
    } else {
        price_rows(map, bound - 1) + price_row(map, bound - 1, map[bound - 1].len() as int)
    }
}

pub proof fn lemma_price_row_grows(map: Seq<Seq<char>>, y: int, a: int, b: int)
    requires
        a <= b,
    ensures
        price_row(map, y, a) <= price_row(map, y, b),
    decreases b - a,
{
    if a < b {
        lemma_price_row_grows(map, y, a, b - 1);
    }
}

pub proof fn lemma_price_rows_grows(map: Seq<Seq<char>>, a: int, b: int)
    requires
        a <= b,
    ensures
        price_rows(map, a) <= price_rows(map, b),
    decreases b - a,
{
    if a < b {
        lemma_price_rows_grows(map, a, b - 1);
    }
}

pub proof fn lemma_region_row_bound(map: Seq<Seq<char>>, s: (usize, usize), y: int, bound: int, fenced: bool)
    requires
        0 <= bound,
    ensures
        region_row(map, s, y, bound, fenced) <= 4 * bound,
    decreases bound,
{
    if bound > 0 {
        lemma_region_row_bound(map, s, y, bound - 1, fenced);
    }
}

pub proof fn lemma_region_rows_bound(
    map: Seq<Seq<char>>,
    s: (usize, usize),
    bound: int,
    fenced: bool,
    width: int,
)
    requires
        0 <= bound <= map.len(),
        0 <= width,
        forall|y: int| 0 <= y < map.len() ==> (#[trigger] map[y]).len() == width,
    ensures
        region_rows(map, s, bound, fenced) <= 4 * width * bound,
    decreases bound,
{
    if bound > 0 {
        lemma_region_rows_bound(map, s, bound - 1, fenced, width);
        lemma_region_row_bound(map, s, bound - 1, width, fenced);
        assert(4 * width * bound == 4 * width * (bound - 1) + 4 * width) by (nonlinear_arith);
    }
}

/// The lattice links every plot to its neighbours of the same plant.
pub open spec fn beds(l: &Lattice, map: Seq<Seq<char>>) -> bool {
    &&& l.wf()
    &&& map.len() > 0
    &&& rectangular(map)
    &&& l.width() == map[0].len()
    &&& l.height() == map.len()
    &&& forall|a: (usize, usize), d: Direction| l.linked(a, d) <==> same_plant(map, a, d)
}

/// On such a lattice the trails are the paths that stay on one plant.
pub proof fn lemma_bed_trail(l: &Lattice, map: Seq<Seq<char>>, p: Seq<(usize, usize)>)
    requires
        beds(l, map),
        p.len() > 0,
    ensures
        is_bed_path(map, p) <==> is_trail(l, p),
{
    if is_bed_path(map, p) {
        assert(map[p[0].1 as int].len() == map[0].len());
        assert forall|i: int| 0 <= i < p.len() - 1 implies l.joined(#[trigger] p[i], p[i + 1]) by {
            assert(bed_step(map, p, i));
            let d = choose|d: Direction| #[trigger]
                same_plant(map, p[i], d) && beside(p[i], d) == (p[i + 1].0 as int, p[i + 1].1 as int);
            assert(l.linked(p[i], d));
        }
    }
    if is_trail(l, p) {
        assert forall|i: int| 0 <= i < p.len() - 1 implies #[trigger] bed_step(map, p, i) by {
            assert(l.joined(p[i], p[i + 1]));
            let d = choose|d: Direction| #[trigger]
                l.linked(p[i], d) && beside(p[i], d) == (p[i + 1].0 as int, p[i + 1].1 as int);
            assert(same_plant(map, p[i], d));
        }
        assert(map[p[0].1 as int].len() == map[0].len());
    }
}

/// The plots that a trail from `s` leads to are the region of `s`.
pub proof fn lemma_region_reach(l: &Lattice, map: Seq<Seq<char>>, s: (usize, usize), c: (usize, usize))
    requires
        beds(l, map),
    ensures
        in_region(map, s, c) <==> !no_trail(l, s, c),
{
    if in_region(map, s, c) {
        let p = choose|p: Seq<(usize, usize)>| #[trigger] is_bed_path(map, p) && p[0] == s && p.last() == c;
        lemma_bed_trail(l, map, p);
        assert(is_trail_to(l, s, p, c));
    }
    if !no_trail(l, s, c) {
        let p = choose|p: Seq<(usize, usize)>| #[trigger] is_trail_to(l, s, p, c);
        lemma_bed_trail(l, map, p);
        assert(is_bed_path(map, p) && p[0] == s && p.last() == c);
    }
}

/// The region of a plot of a region lies in that region.
pub proof fn lemma_region_trans(map: Seq<Seq<char>>, a: (usize, usize), b: (usize, usize), c: (
    usize,
    usize,
))
    requires
        in_region(map, a, b),
        in_region(map, b, c),
    ensures
        in_region(map, a, c),
{
    let p = choose|p: Seq<(usize, usize)>| #[trigger] is_bed_path(map, p) && p[0] == a && p.last() == b;
    let q = choose|q: Seq<(usize, usize)>| #[trigger] is_bed_path(map, q) && q[0] == b && q.last() == c;
    let r = p + q.skip(1);
    assert forall|i: int| 0 <= i < r.len() - 1 implies #[trigger] bed_step(map, r, i) by {
        if i < p.len() - 1 {
            assert(bed_step(map, p, i));
        } else {
            let k = i - (p.len() - 1);
            assert(bed_step(map, q, k));
        }
    }
    assert(is_bed_path(map, r) && r[0] == a && r.last() == c);
}

/// Every plot lies in its own region.
pub proof fn lemma_region_self(map: Seq<Seq<char>>, a: (usize, usize))
    requires
        plant(map, a.0 as int, a.1 as int) is Some,
    ensures
        in_region(map, a, a),
{
    let p = seq![a];
    assert(is_bed_path(map, p) && p[0] == a && p.last() == a);
}

/// Which neighbours of each plot grow the same plant.
fn plant_links(map: &Vec<Vec<char>>, width: usize, cells: usize) -> (links: Vec<Quad<bool>>)
    requires
        map.len() > 0,
        rectangular(views(map@)),
        width == views(map@)[0].len(),
        cells == width * map.len(),
    ensures
        links.len() == cells,
        forall|a: (usize, usize), d: Direction|
            wanted(width as nat, map.len() as nat, links@, a, d) <==> same_plant(views(map@), a, d),
{
    let ghost m = views(map@);
    let height = map.len();
    let mut links: Vec<Quad<bool>> = Vec::new();
    let mut y: usize = 0;
    while y < height
        invariant
            y <= height,
            height == map.len(),
            m == views(map@),
            rectangular(m),
            width == m[0].len(),
            links.len() == y * width,
            forall|x2: int, y2: int, d: Direction|
                0 <= y2 < y && 0 <= x2 < width ==> (#[trigger] links@[slot(width as int, x2, y2)].get(
                    d,
                ) <==> same_plant(m, (x2 as usize, y2 as usize), d)),
        decreases height - y,
    {
        let mut x: usize = 0;
        assert(m[y as int].len() == m[0].len());
        while x < width
            invariant
                x <= width,
                y < height,
                height == map.len(),
                m == views(map@),
                rectangular(m),
                width == m[0].len(),
                links.len() == y * width + x,
                forall|x2: int, y2: int, d: Direction|
                    0 <= y2 < y && 0 <= x2 < width ==> (#[trigger] links@[slot(
                        width as int,
                        x2,
                        y2,
                    )].get(d) <==> same_plant(m, (x2 as usize, y2 as usize), d)),
                forall|x2: int, d: Direction|
                    0 <= x2 < x ==> (#[trigger] links@[slot(width as int, x2, y as int)].get(d)
                        <==> same_plant(m, (x2 as usize, y), d)),
            decreases width - x,
        {
            assert(m[y as int] == map@[y as int]@);
            assert(m[y as int].len() == m[0].len());
            let here = map[y][x];
            let north = y > 0 && same_at(map, x, y - 1, here);
            let east = x + 1 < width && same_at(map, x + 1, y, here);
            let south = y + 1 < height && same_at(map, x, y + 1, here);
            let west = x > 0 && same_at(map, x - 1, y, here);
            proof {
                assert forall|k: int| 0 <= k < m.len() implies (#[trigger] m[k]).len() == width by {}
                assert forall|x2: int, y2: int| 0 <= y2 < y && 0 <= x2 < width implies slot(
                    width as int,
                    x2,
                    y2,
                ) < links.len() by {
                    lemma_slot_in_range(width as int, y as int, x2, y2);
                    assert(width * y == y * width) by (nonlinear_arith);
                }
            }
            links.push(Quad { north, east, south, west });
            proof {
                let q = Quad { north, east, south, west };
                assert forall|d: Direction| #[trigger] q.get(d) <==> same_plant(m, (x, y), d) by {
                    match d {
                        Direction::North => {
                            if y > 0 {
                                assert(m[y - 1].len() == width);
                            }
                        },
                        Direction::East => {},
                        Direction::South => {
                            if y + 1 < height {
                                assert(m[y + 1].len() == width);
                            }
                        },
                        Direction::West => {},
                    }
                }
            }
            x += 1;
        }
        proof {
            assert((y + 1) * width == y * width + width) by (nonlinear_arith);
        }
        y += 1;
    }
    proof {
        assert(height * width == width * height) by (nonlinear_arith);
        assert forall|a: (usize, usize), d: Direction|
            wanted(width as nat, map.len() as nat, links@, a, d) <==> same_plant(m, a, d) by {
            if a.0 < width && a.1 < height {
                assert(links@[slot(width as int, a.0 as int, a.1 as int)].get(d) <==> same_plant(
                    m,
                    (a.0 as int as usize, a.1 as int as usize),
                    d,
                ));
                assert(m[a.1 as int].len() == width);
                let b = beside(a, d);
                if 0 <= b.1 < height {
                    assert(m[b.1].len() == width);
                }
            }
        }
    }
    links
}

/// Whether the plot at column `x` of row `y` grows `here`.
fn same_at(map: &Vec<Vec<char>>, x: usize, y: usize, here: char) -> (b: bool)
    ensures
        b == (plant(views(map@), x as int, y as int) == Some(here)),
{
    if y >= map.len() {
        return false;
    }
    let row = &map[y];
    assert(views(map@)[y as int] == row@);
    if x >= row.len() {
        return false;
    }
    row[x] == here
}

/// The area and the perimeter of the region that a spread has found, and
/// the marks with that region added.
fn measure(map: &Vec<Vec<char>>, l: &Lattice, found: &Spread, seen: &mut Vec<bool>) -> (r: (u128, u128))
    requires
        beds(l, views(map@)),
        found.of(l),
        old(seen).len() == l.width() * l.height(),
    ensures
        final(seen).len() == old(seen).len(),
        r.0 == region_rows(views(map@), found.from(), map.len() as int, false),
        r.1 == region_rows(views(map@), found.from(), map.len() as int, true),
        forall|x: int, y: int|
            0 <= x < l.width() && 0 <= y < l.height() ==> (#[trigger] final(seen)@[slot(
                l.width() as int,
                x,
                y,
            )] <==> old(seen)@[slot(l.width() as int, x, y)] || in_region(
                views(map@),
                found.from(),
                (x as usize, y as usize),
            )),
{
    let ghost m = views(map@);
    let ghost s = found.from();
    let ghost start = seen@;
    let width = l.cols();
    let height = l.rows();
    let mut area: u128 = 0;
    let mut perimeter: u128 = 0;
    let mut y: usize = 0;
    while y < height
        invariant
            y <= height,
            beds(l, m),
            m == views(map@),
            found.of(l),
            s == found.from(),
            width == l.width(),
            height == l.height(),
            height == map.len(),
            seen.len() == start.len(),
            start.len() == width * height,
            area == region_rows(m, s, y as int, false),
            perimeter == region_rows(m, s, y as int, true),
            forall|x2: int, y2: int|
                0 <= x2 < width && 0 <= y2 < height ==> (#[trigger] seen@[slot(
                    width as int,
                    x2,
                    y2,
                )] <==> start[slot(width as int, x2, y2)] || (y2 < y && in_region(
                    m,
                    s,
                    (x2 as usize, y2 as usize),
                ))),
        decreases height - y,
    {
        assert(m[y as int].len() == m[0].len());
        let mut in_row: u128 = 0;
        let mut fences: u128 = 0;
        let mut x: usize = 0;
        while x < width
            invariant
                x <= width,
                y < height,
                beds(l, m),
                m == views(map@),
                found.of(l),
                s == found.from(),
                width == l.width(),
                height == l.height(),
                height == map.len(),
                width == m[y as int].len(),
                seen.len() == start.len(),
                start.len() == width * height,
                in_row == region_row(m, s, y as int, x as int, false),
                fences == region_row(m, s, y as int, x as int, true),
                in_row <= 4 * x,
                fences <= 4 * x,
                forall|x2: int, y2: int|
                    0 <= x2 < width && 0 <= y2 < height ==> (#[trigger] seen@[slot(
                        width as int,
                        x2,
                        y2,
                    )] <==> start[slot(width as int, x2, y2)] || ((y2 < y || (y2 == y && x2 < x))
                        && in_region(m, s, (x2 as usize, y2 as usize)))),
            decreases width - x,
        {
            let c = (x, y);
            let steps = found.steps_to(l, c);
            let reached = steps.is_some();
            proof {
                lemma_region_reach(l, m, s, c);
                if reached {
                    let p = choose|p: Seq<(usize, usize)>| #[trigger]
                        is_trail_to(l, s, p, c) && p.len() == steps.unwrap() + 1;
                    assert(is_trail_to(l, s, p, c));
                    assert(!no_trail(l, s, c));
                }
                lemma_slot_in_range(width as int, height as int, x as int, y as int);
            }
            let ghost before = seen@;
            if reached {
                in_row += 1;
                let mut sides: u128 = 0;
                if !l.has_link(c, Direction::North) {
                    sides += 1;
                }
                if !l.has_link(c, Direction::East) {
                    sides += 1;
                }
                if !l.has_link(c, Direction::South) {
                    sides += 1;
                }
                if !l.has_link(c, Direction::West) {
                    sides += 1;
                }
                assert(sides == fence(m, c));
                fences += sides;
                seen.set(y * width + x, true);
            }
            proof {
                assert forall|x2: int, y2: int| 0 <= x2 < width && 0 <= y2 < height implies (
                #[trigger] seen@[slot(width as int, x2, y2)] <==> start[slot(width as int, x2, y2)]
                    || ((y2 < y || (y2 == y && x2 < x + 1)) && in_region(
                    m,
                    s,
                    (x2 as usize, y2 as usize),
                ))) by {
                    lemma_slot_in_range(width as int, height as int, x2, y2);
                    if slot(width as int, x2, y2) == slot(width as int, x as int, y as int) {
                        lemma_slot_injective(width as int, x2, y2, x as int, y as int);
                    } else {
                        assert(seen@[slot(width as int, x2, y2)] == before[slot(width as int, x2, y2)]);
                    }
                }
            }
            x += 1;
        }
        proof {
            lemma_region_rows_bound(m, s, y as int, false, width as int);
            lemma_region_rows_bound(m, s, y as int, true, width as int);
            assert(4 * width * y + 4 * width <= 4 * (width * height)) by (nonlinear_arith)
                requires
                    0 <= width,
                    0 <= y < height,
            ;
            assert(width * height <= usize::MAX);
            assert forall|k: int| 0 <= k < m.len() implies (#[trigger] m[k]).len() == width by {
                assert(m[k].len() == m[0].len());
            }
        }
        area += in_row;
        perimeter += fences;
        y += 1;
    }
    (area, perimeter)
}

/// The total price of fencing all regions of a garden: for every region,
/// its area times its perimeter. There is no price for a map whose rows
/// differ in length, nor where a number exceeds what the machine holds.
pub fn calculate_price(map: &Vec<Vec<char>>) -> (r: Option<u128>)
    ensures
        match r {
            Some(p) => rectangular(views(map@)) && p == price_rows(views(map@), map.len() as int),
            None => !rectangular(views(map@)) || views(map@)[0].len() * map.len() > usize::MAX
                || price_rows(views(map@), map.len() as int) > u128::MAX,
        },
{
    let ghost m = views(map@);
    let height = map.len();
    if height == 0 {
        return Some(0);
    }
    let width = map[0].len();
    assert(m[0] == map@[0]@);
    let mut k: usize = 0;
    while k < height
        invariant
            k <= height,
            height == map.len(),
            m == views(map@),
            width == m[0].len(),
            forall|y: int| 0 <= y < k ==> (#[trigger] m[y]).len() == m[0].len(),
        decreases height - k,
    {
        assert(m[k as int] == map@[k as int]@);
        if map[k].len() != width {
            return None;
        }
        k += 1;
    }
    let cells = match width.checked_mul(height) {
        Some(n) => n,
        None => {
            return None;
        },
    };
    let links = plant_links(map, width, cells);
    let l = Lattice::from_links(width, height, &links);
    let mut seen: Vec<bool> = Vec::new();
    let mut i: usize = 0;
    while i < cells
        invariant
            i <= cells,
            seen.len() == i,
            forall|j: int| 0 <= j < i ==> !seen@[j],
        decreases cells - i,
    {
        seen.push(false);
        i += 1;
    }
    proof {
        assert(beds(&l, m));
        assert forall|x2: int, y2: int| 0 <= x2 < width && 0 <= y2 < height implies !seen@[slot(
            width as int,
            x2,
            y2,
        )] by {
            lemma_slot_in_range(width as int, height as int, x2, y2);
        }
    }
    let mut total_price: u128 = 0;
    let mut y: usize = 0;
    while y < height
        invariant
            y <= height,
            height == map.len(),
            m == views(map@),
            beds(&l, m),
            width == l.width(),
            height == l.height(),
            seen.len() == width * height,
            total_price == price_rows(m, y as int),
            forall|x2: int, y2: int|
                0 <= x2 < width && 0 <= y2 < height ==> (#[trigger] seen@[slot(
                    width as int,
                    x2,
                    y2,
                )] <==> exists|e: (usize, usize)|
                    e.1 < y && e.0 < width && #[trigger] in_region(m, e, (x2 as usize, y2 as usize))),
        decreases height - y,
    {
        assert(m[y as int].len() == m[0].len());
        let mut row_price: u128 = 0;
        let mut x: usize = 0;
        while x < width
            invariant
                x <= width,
                y < height,
                height == map.len(),
                m == views(map@),
                beds(&l, m),
                width == l.width(),
                height == l.height(),
                width == m[y as int].len(),
                seen.len() == width * height,
                row_price == price_row(m, y as int, x as int),
                forall|x2: int, y2: int|
                    0 <= x2 < width && 0 <= y2 < height ==> (#[trigger] seen@[slot(
                        width as int,
                        x2,
                        y2,
                    )] <==> exists|e: (usize, usize)|
                        (e.1 < y || (e.1 == y && e.0 < x)) && e.0 < width && #[trigger] in_region(
                            m,
                            e,
                            (x2 as usize, y2 as usize),
                        )),
            decreases width - x,
        {
            let ghost before = seen@;
            let c = (x, y);
            proof {
                lemma_slot_in_range(width as int, height as int, x as int, y as int);
                lemma_region_self(m, c);
            }
            let was_seen = seen[y * width + x];
            proof {
                // a plot is the first of its region if no earlier plot reaches it
                if !was_seen {
                    assert forall|e: (usize, usize)|
                        crate::lattice::earlier(
                            e.0 as int,
                            e.1 as int,
                            c.0 as int,
                            c.1 as int,
                        ) implies !#[trigger] in_region(m, e, c) by {
                        if in_region(m, e, c) {
                            lemma_region_on_map(m, e, c);
                            assert(m[e.1 as int].len() == m[0].len());
                        }
                    }
                    assert(is_seed(m, c));
                } else {
                    let e = choose|e: (usize, usize)|
                        (e.1 < y || (e.1 == y && e.0 < x)) && e.0 < width && #[trigger] in_region(
                            m,
                            e,
                            (x as int as usize, y as int as usize),
                        );
                    assert(!is_seed(m, c));
                }
            }
            if !was_seen {
                let found = l.spread(c);
                let (area, perimeter) = measure(map, &l, &found, &mut seen);
                let price = match area.checked_mul(perimeter) {
                    Some(p) => p,
                    None => {
                        proof {
                            lemma_price_row_grows(m, y as int, x + 1, width as int);
                            lemma_price_rows_grows(m, y + 1, height as int);
                        }
                        return None;
                    },
                };
                row_price = match row_price.checked_add(price) {
                    Some(p) => p,
                    None => {
                        proof {
                            lemma_price_row_grows(m, y as int, x + 1, width as int);
                            lemma_price_rows_grows(m, y + 1, height as int);
                        }
                        return None;
                    },
                };
            }
            proof {
                assert forall|x2: int, y2: int| 0 <= x2 < width && 0 <= y2 < height implies (
                #[trigger] seen@[slot(width as int, x2, y2)] <==> exists|e: (usize, usize)|
                    (e.1 < y || (e.1 == y && e.0 < x + 1)) && e.0 < width && #[trigger] in_region(
                        m,
                        e,
                        (x2 as usize, y2 as usize),
                    )) by {
                    let t = (x2 as usize, y2 as usize);
                    let now = seen@[slot(width as int, x2, y2)];
                    let old_mark = before[slot(width as int, x2, y2)];
                    if now {
                        if old_mark {
                            let e = choose|e: (usize, usize)|
                                (e.1 < y || (e.1 == y && e.0 < x)) && e.0 < width && #[trigger] in_region(
                                    m,
                                    e,
                                    t,
                                );
                            assert(in_region(m, e, t));
                        } else {
                            assert(in_region(m, c, t));
                        }
                    }
                    if exists|e: (usize, usize)|
                        (e.1 < y || (e.1 == y && e.0 < x + 1)) && e.0 < width && #[trigger] in_region(
                            m,
                            e,
                            t,
                        ) {
                        let e = choose|e: (usize, usize)|
                            (e.1 < y || (e.1 == y && e.0 < x + 1)) && e.0 < width && #[trigger] in_region(
                                m,
                                e,
                                t,
                            );
                        if e == c {
                            if was_seen {
                                let e0 = choose|e0: (usize, usize)|
                                    (e0.1 < y || (e0.1 == y && e0.0 < x)) && e0.0 < width
                                        && #[trigger] in_region(
                                        m,
                                        e0,
                                        (x as int as usize, y as int as usize),
                                    );
                                lemma_region_trans(m, e0, c, t);
                                assert(in_region(m, e0, t));
                            }
                        } else {
                            assert(in_region(m, e, t));
                        }
                    }
                }
            }
            x += 1;
        }
        total_price = match total_price.checked_add(row_price) {
            Some(p) => p,
            None => {
                proof {
                    lemma_price_rows_grows(m, y + 1, height as int);
                }
                return None;
            },
        };
        y += 1;
    }
    Some(total_price)
}

/// A region lies on the map.
pub proof fn lemma_region_on_map(map: Seq<Seq<char>>, a: (usize, usize), b: (usize, usize))
    requires
        in_region(map, a, b),
    ensures
        plant(map, a.0 as int, a.1 as int) is Some,
        plant(map, b.0 as int, b.1 as int) is Some,
{
    let p = choose|p: Seq<(usize, usize)>| #[trigger] is_bed_path(map, p) && p[0] == a && p.last() == b;
    if p.len() > 1 {
        let i = p.len() - 2;
        assert(bed_step(map, p, i));
        let d = choose|d: Direction| #[trigger]
            same_plant(map, p[i], d) && beside(p[i], d) == (p[i + 1].0 as int, p[i + 1].1 as int);
        assert(same_plant(map, p[i], d));
    }
}


/// A plot, or a step between plots: row `x`, column `y`.
#[derive(Debug, Clone, Copy, PartialEq, Eq, Structural, Hash)]
pub struct Point {
    pub x: i32,
    pub y: i32,
}

/// The plot at row `x` and column `y` lies on the grid and grows the same
/// plant as the plot `p`.
pub open spec fn alike(grid: Seq<Seq<char>>, p: Point, x: int, y: int) -> bool {
    letter(grid, x, y) is Some && letter(grid, x, y) == letter(grid, p.x as int, p.y as int)
}

/// A step turned to the right by `num` quarter turns.
pub open spec fn turned(d: Point, num: int) -> Option<(int, int)> {
    if num == 0 {
        Some((d.x as int, d.y as int))
    } else if num == 1 {
        Some((d.y as int, -d.x))
    } else if num == 2 {
        Some((-d.x, -d.y))
    } else if num == 3 {
        Some((-d.y, d.x as int))
    } else {
        None
    }
}

/// The plots beside `p` that a grid of `rows` rows and `cols` columns has
/// room for: above, below, to the left, to the right.
pub open spec fn neighbours_of(p: Point, rows: int, cols: int) -> Seq<Point> {
    let up = if p.x > 0 {
        seq![Point { x: (p.x - 1) as i32, y: p.y }]
    } else {
        Seq::empty()
    };
    let down = if p.x < rows - 1 && p.x < i32::MAX {
        seq![Point { x: (p.x + 1) as i32, y: p.y }]
    } else {
        Seq::empty()
    };
    let left = if p.y > 0 {
        seq![Point { x: p.x, y: (p.y - 1) as i32 }]
    } else {
        Seq::empty()
    };
    let right = if p.y < cols - 1 && p.y < i32::MAX {
        seq![Point { x: p.x, y: (p.y + 1) as i32 }]
    } else {
        Seq::empty()
    };
    up + down + left + right
}

/// How many of the first `n` plots of `s` are like `p`.
pub open spec fn alike_count(grid: Seq<Seq<char>>, p: Point, s: Seq<Point>, n: int) -> nat
    decreases n,
{
    if n <= 0 {
        0
    } else {
        alike_count(grid, p, s, n - 1) + if alike(grid, p, s[n - 1].x as int, s[n - 1].y as int) {
            1nat
        } else {
            0nat
        }
    }
}

/// The plot `p` has a side in the direction `d` that is counted at `p`: no
/// plot of the same plant lies beyond it, and no visited plot of the same
/// plant to the left or right of `p` has that side too.
pub open spec fn has_side(grid: Seq<Seq<char>>, visited: Seq<Point>, p: Point, d: Point) -> bool {
    let left = turned(d, 3).unwrap();
    let right = turned(d, 1).unwrap();
    if alike(grid, p, p.x + d.x, p.y + d.y) {
        false
    } else if alike(grid, p, p.x + left.0, p.y + left.1) && held(visited, p.x + left.0, p.y + left.1)
        && !alike(grid, p, p.x + left.0 + d.x, p.y + left.1 + d.y) {
        false
    } else if alike(grid, p, p.x + right.0, p.y + right.1) && held(
        visited,
        p.x + right.0,
        p.y + right.1,
    ) && !alike(grid, p, p.x + right.0 + d.x, p.y + right.1 + d.y) {
        false
    } else {
        true
    }
}

/// The plot at row `x` and column `y` is among the visited.
pub open spec fn held(visited: Seq<Point>, x: int, y: int) -> bool {
    exists|i: int| 0 <= i < visited.len() && (#[trigger] visited[i]).x == x && visited[i].y == y
}

/// The letter at a place given by whole numbers.
fn plant_at(grid: &Vec<Vec<char>>, x: i64, y: i64) -> (l: Option<char>)
    ensures
        l == letter(views(grid@), x as int, y as int),
{
    if x < 0 || y < 0 || x as u64 >= grid.len() as u64 {
        return None;
    }
    let row = &grid[x as usize];
    assert(views(grid@)[x as int] == row@);
    if y as u64 >= row.len() as u64 {
        return None;
    }
    Some(row[y as usize])
}

/// Whether the plot is among the visited.
fn is_held(visited: &Vec<Point>, x: i64, y: i64) -> (b: bool)
    ensures
        b == held(visited@, x as int, y as int),
{
    let mut i: usize = 0;
    while i < visited.len()
        invariant
            i <= visited.len(),
            forall|k: int| 0 <= k < i ==> !((#[trigger] visited@[k]).x == x && visited@[k].y == y),
        decreases visited.len() - i,
    {
        if visited[i].x as i64 == x && visited[i].y as i64 == y {
            return true;
        }
        i += 1;
    }
    false
}

impl Point {
    pub fn new(x: i32, y: i32) -> (p: Point)
        ensures
            p == (Point { x, y }),
    {
        Point { x, y }
    }

    /// The plot one step from this one.
    pub fn add(self, other: Point) -> (p: Point)
        requires
            i32::MIN <= self.x + other.x <= i32::MAX,
            i32::MIN <= self.y + other.y <= i32::MAX,
        ensures
            p.x == self.x + other.x,
            p.y == self.y + other.y,
    {
        Point { x: self.x + other.x, y: self.y + other.y }
    }

    /// The plant of the plot, if the grid has the plot.
    pub fn get(&self, grid: &Vec<Vec<char>>) -> (l: Option<char>)
        ensures
            l == letter(views(grid@), self.x as int, self.y as int),
    {
        plant_at(grid, self.x as i64, self.y as i64)
    }

    /// The step turned to the right by `num` quarter turns; nothing for
    /// another number of turns than 0 to 3, or where the step cannot be
    /// held.
    pub fn rotate_right(&self, num: i32) -> (r: Option<Point>)
        ensures
            match r {
                Some(p) => turned(*self, num as int) == Some((p.x as int, p.y as int)),
                None => match turned(*self, num as int) {
                    Some(t) => t.0 > i32::MAX || t.1 > i32::MAX,
                    None => true,
                },
            },
    {
        if self.x == i32::MIN && (num == 1 || num == 2) {
            return None;
        }
        if self.y == i32::MIN && (num == 2 || num == 3) {
            return None;
        }
        match num {
            0 => Some(Point::new(self.x, self.y)),
            1 => Some(Point::new(self.y, -self.x)),
            2 => Some(Point::new(-self.x, -self.y)),
            3 => Some(Point::new(-self.y, self.x)),
            _ => None,
        }
    }

    /// The plots beside this one that the grid has room for.
    pub fn neighbours(&self, grid: &Vec<Vec<char>>) -> (r: Vec<Point>)
        ensures
            r@ == neighbours_of(
                *self,
                grid.len() as int,
                if grid.len() > 0 {
                    grid[0].len() as int
                } else {
                    0
                },
            ),
    {
        let rows: i128 = grid.len() as i128;
        let cols: i128 = if grid.len() > 0 {
            grid[0].len() as i128
        } else {
            0
        };
        let mut neighbours: Vec<Point> = Vec::new();
        if self.x > 0 {
            neighbours.push(Point::new(self.x - 1, self.y));
        }
        let ghost n1 = neighbours@;
        if (self.x as i128) < rows - 1 && self.x < i32::MAX {
            neighbours.push(Point::new(self.x + 1, self.y));
        }
        let ghost n2 = neighbours@;
        if self.y > 0 {
            neighbours.push(Point::new(self.x, self.y - 1));
        }
        let ghost n3 = neighbours@;
        if (self.y as i128) < cols - 1 && self.y < i32::MAX {
            neighbours.push(Point::new(self.x, self.y + 1));
        }
        proof {
            let p = *self;
            let up = if p.x > 0 {
                seq![Point { x: (p.x - 1) as i32, y: p.y }]
            } else {
                Seq::empty()
            };
            let down = if p.x < rows - 1 && p.x < i32::MAX {
                seq![Point { x: (p.x + 1) as i32, y: p.y }]
            } else {
                Seq::empty()
            };
            let left = if p.y > 0 {
                seq![Point { x: p.x, y: (p.y - 1) as i32 }]
            } else {
                Seq::empty()
            };
            let right = if p.y < cols - 1 && p.y < i32::MAX {
                seq![Point { x: p.x, y: (p.y + 1) as i32 }]
            } else {
                Seq::empty()
            };
            assert(n1 =~= up);
            assert(n2 =~= up + down);
            assert(n3 =~= up + down + left);
            assert(neighbours@ =~= up + down + left + right);
        }
        neighbours
    }

    /// Whether the grid has this plot, among the columns of its first row.
    pub fn in_bounds(&self, grid: &Vec<Vec<char>>) -> (b: bool)
        ensures
            b == (0 <= self.x < grid.len() && 0 <= self.y && grid.len() > 0 && self.y < grid[0].len()),
    {
        self.x >= 0 && (self.x as i128) < grid.len() as i128 && self.y >= 0 && grid.len() > 0 && (
        self.y as i128) < grid[0].len() as i128
    }

    /// How many sides of this plot have no neighbour of the same plant.
    pub fn perimeter_at_point(&self, grid: &Vec<Vec<char>>) -> (n: usize)
        ensures
            ({
                let around = neighbours_of(
                    *self,
                    grid.len() as int,
                    if grid.len() > 0 {
                        grid[0].len() as int
                    } else {
                        0
                    },
                );
                n == 4 - alike_count(views(grid@), *self, around, around.len() as int)
            }),
    {
        let around = self.neighbours(grid);
        assert(around.len() <= 4);
        let here = self.get(grid);
        let mut same: usize = 0;
        let mut i: usize = 0;
        while i < around.len()
            invariant
                i <= around.len() <= 4,
                here == letter(views(grid@), self.x as int, self.y as int),
                same == alike_count(views(grid@), *self, around@, i as int),
                same <= i,
            decreases around.len() - i,
        {
            let there = around[i].get(grid);
            let alike = match (there, here) {
                (Some(a), Some(b)) => a == b,
                _ => false,
            };
            if alike {
                same += 1;
            }
            i += 1;
        }
        4 - same
    }

    /// Whether the plot has a side in the direction `dir` that is to be
    /// counted at the plot.
    pub fn side_in_dir(self, grid: &Vec<Vec<char>>, visited: &Vec<Point>, dir: Point) -> (b: bool)
        requires
            -1 <= dir.x <= 1,
            -1 <= dir.y <= 1,
        ensures
            b == has_side(views(grid@), visited@, self, dir),
    {
        let here = self.get(grid);
        let px = self.x as i64;
        let py = self.y as i64;
        let dx = dir.x as i64;
        let dy = dir.y as i64;
        if same_as(grid, here, px + dx, py + dy) {
            return false;
        }
        let (lx, ly) = (-dy, dx);
        let (rx, ry) = (dy, -dx);
        if same_as(grid, here, px + lx, py + ly) && is_held(visited, px + lx, py + ly) {
            if !same_as(grid, here, px + lx + dx, py + ly + dy) {
                return false;
            }
        }
        if same_as(grid, here, px + rx, py + ry) && is_held(visited, px + rx, py + ry) {
            if !same_as(grid, here, px + rx + dx, py + ry + dy) {
                return false;
            }
        }
        true
    }

    /// How many sides of the plot are to be counted at the plot.
    pub fn sides(&self, grid: &Vec<Vec<char>>, visited: &Vec<Point>) -> (n: usize)
        ensures
            n == side_count(views(grid@), visited@, *self, 4),
    {
        let dirs = [Point { x: 0, y: 1 }, Point { x: 1, y: 0 }, Point { x: 0, y: -1 }, Point { x: -1, y: 0 }];
        let mut edges: usize = 0;
        let mut i: usize = 0;
        while i < 4
            invariant
                i <= 4,
                dirs@ == seq![
                    Point { x: 0, y: 1 },
                    Point { x: 1, y: 0 },
                    Point { x: 0, y: -1i32 },
                    Point { x: -1i32, y: 0 },
                ],
                edges == side_count(views(grid@), visited@, *self, i as int),
                edges <= i,
            decreases 4 - i,
        {
            assert(dirs@[i as int] == side_dir(i as int));
            if self.side_in_dir(grid, visited, dirs[i]) {
                edges += 1;
            }
            i += 1;
        }
        edges
    }
}

/// The four directions in which sides are counted: right, down, left, up.
pub open spec fn side_dir(i: int) -> Point {
    if i == 0 {
        Point { x: 0, y: 1 }
    } else if i == 1 {
        Point { x: 1, y: 0 }
    } else if i == 2 {
        Point { x: 0, y: -1i32 }
    } else {
        Point { x: -1i32, y: 0 }
    }
}

/// How many of the first `n` directions show a side to be counted at `p`.
pub open spec fn side_count(grid: Seq<Seq<char>>, visited: Seq<Point>, p: Point, n: int) -> nat
    decreases n,
{
    if n <= 0 {
        0
    } else {
        side_count(grid, visited, p, n - 1) + if has_side(grid, visited, p, side_dir(n - 1)) {
            1nat
        } else {
            0nat
        }
    }
}

/// Whether the plot at row `x` and column `y` lies on the grid and grows
/// `here`.
fn same_as(grid: &Vec<Vec<char>>, here: Option<char>, x: i64, y: i64) -> (b: bool)
    ensures
        b == (letter(views(grid@), x as int, y as int) is Some && letter(
            views(grid@),
            x as int,
            y as int,
        ) == here),
{
    match (plant_at(grid, x, y), here) {
        (Some(a), Some(b)) => a == b,
        _ => false,
    }
}

} // verus!
