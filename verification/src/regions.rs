//! Regions of garden plots, surveyed plot by plot: their areas, their
//! fences, and the sides of their fences as they are counted on the way.

use vstd::prelude::*;
use crate::garden::{alike_count, neighbours_of, side_count, Point};
use crate::marks::{blank_marks, lemma_marked_rows_bound, lemma_rows_plus, marked_in_rows, set_mark};
use crate::text::views;

verus! {

/// The grid has the plot `p`.
pub open spec fn on_grid(grid: Seq<Seq<char>>, p: Point) -> bool {
    0 <= p.x < grid.len() && 0 <= p.y < grid[p.x as int].len()
}

/// Two plots lie side by side.
pub open spec fn next_to(a: Point, b: Point) -> bool {
    (a.x == b.x && (a.y == b.y + 1 || b.y == a.y + 1)) || (a.y == b.y && (a.x == b.x + 1 || b.x == a.x
        + 1))
}

/// Two plots of the grid lie side by side and grow the same plant.
pub open spec fn joined(grid: Seq<Seq<char>>, a: Point, b: Point) -> bool {
    &&& on_grid(grid, a)
    &&& on_grid(grid, b)
    &&& next_to(a, b)
    &&& grid[a.x as int][a.y as int] == grid[b.x as int][b.y as int]
}

/// The `i`-th plot of a walk and the next are joined.
pub open spec fn walk_step(grid: Seq<Seq<char>>, w: Seq<Point>, i: int) -> bool {
    joined(grid, w[i], w[i + 1])
}

/// A walk over plots of one plant, from each to one beside it.
pub open spec fn is_bed_walk(grid: Seq<Seq<char>>, w: Seq<Point>) -> bool {
    &&& w.len() > 0
    &&& on_grid(grid, w[0])
    &&& forall|i: int| 0 <= i < w.len() - 1 ==> #[trigger] walk_step(grid, w, i)
}

/// The plots `a` and `b` belong to one region: a walk over plots of one
/// plant leads from the one to the other.
pub open spec fn same_bed(grid: Seq<Seq<char>>, a: Point, b: Point) -> bool {
    exists|w: Seq<Point>| #[trigger] is_bed_walk(grid, w) && w[0] == a && w.last() == b
}

/// Every plot is in its own region.
pub proof fn lemma_bed_self(grid: Seq<Seq<char>>, a: Point)
    requires
        on_grid(grid, a),
    ensures
        same_bed(grid, a, a),
{
    let w = seq![a];
    assert(is_bed_walk(grid, w) && w[0] == a && w.last() == a);
}

/// A region holds what is joined to one of its plots.
pub proof fn lemma_bed_grows(grid: Seq<Seq<char>>, a: Point, b: Point, c: Point)
    requires
        same_bed(grid, a, b),
        joined(grid, b, c),
    ensures
        same_bed(grid, a, c),
{
    let w = choose|w: Seq<Point>| #[trigger] is_bed_walk(grid, w) && w[0] == a && w.last() == b;
    let v = w.push(c);
    assert forall|i: int| 0 <= i < v.len() - 1 implies #[trigger] walk_step(grid, v, i) by {
        if i < w.len() - 1 {
            assert(walk_step(grid, w, i));
        }
    }
    assert(is_bed_walk(grid, v) && v[0] == a && v.last() == c);
}

/// A set of plots is closed: what is joined to one of its plots is in it.
pub open spec fn closed(grid: Seq<Seq<char>>, inside: spec_fn(Point) -> bool) -> bool {
    forall|p: Point, q: Point| inside(p) && #[trigger] joined(grid, p, q) ==> inside(q)
}

/// A closed set that holds one plot of a walk holds them all.
pub proof fn lemma_closed_walk(grid: Seq<Seq<char>>, inside: spec_fn(Point) -> bool, w: Seq<Point>, i: int, j: int)
    requires
        closed(grid, inside),
        is_bed_walk(grid, w),
        0 <= i < w.len(),
        0 <= j < w.len(),
        inside(w[i]),
    ensures
        inside(w[j]),
    decreases
            if j >= i {
                j - i
            } else {
                i - j
            },
{
    if j > i {
        lemma_closed_walk(grid, inside, w, i, j - 1);
        assert(walk_step(grid, w, j - 1));
    } else if j < i {
        lemma_closed_walk(grid, inside, w, i, j + 1);
        assert(walk_step(grid, w, j));
        assert(joined(grid, w[j + 1], w[j]));
    }
}

/// A closed set holds the whole region of each of its plots, and none of
/// the region of a plot outside it.
pub proof fn lemma_closed_bed(grid: Seq<Seq<char>>, inside: spec_fn(Point) -> bool, a: Point, b: Point)
    requires
        closed(grid, inside),
        same_bed(grid, a, b),
    ensures
        inside(a) == inside(b),
{
    let w = choose|w: Seq<Point>| #[trigger] is_bed_walk(grid, w) && w[0] == a && w.last() == b;
    if inside(a) {
        lemma_closed_walk(grid, inside, w, 0, w.len() - 1);
    }
    if inside(b) {
        lemma_closed_walk(grid, inside, w, w.len() - 1, 0);
    }
}

/// The number of columns of the first row, 0 for a grid without rows.
pub open spec fn width_of(grid: Seq<Seq<char>>) -> int {
    if grid.len() > 0 {
        grid[0].len() as int
    } else {
        0
    }
}

/// The rows of the grid are equally long, and signed 32-bit numbers count
/// its rows and its columns.
pub open spec fn tidy(grid: Seq<Seq<char>>) -> bool {
    &&& grid.len() <= i32::MAX
    &&& width_of(grid) <= i32::MAX
    &&& forall|x: int| 0 <= x < grid.len() ==> (#[trigger] grid[x]).len() == width_of(grid)
}

/// Whether the grid is tidy.
pub fn check_tidy(grid: &Vec<Vec<char>>) -> (b: bool)
    ensures
        b == tidy(views(grid@)),
{
    let ghost g = views(grid@);
    if grid.len() > i32::MAX as usize {
        return false;
    }
    if grid.len() == 0 {
        return true;
    }
    assert(g[0] == grid@[0]@);
    let cols = grid[0].len();
    if cols > i32::MAX as usize {
        return false;
    }
    let mut x: usize = 0;
    while x < grid.len()
        invariant
            x <= grid.len(),
            g == views(grid@),
            grid.len() > 0,
            cols == g[0].len(),
            forall|k: int| 0 <= k < x ==> (#[trigger] g[k]).len() == cols,
        decreases grid.len() - x,
    {
        assert(g[x as int] == grid@[x as int]@);
        if grid[x].len() != cols {
            return false;
        }
        x += 1;
    }
    true
}

/// How many sides of the plot `p` have no plot of the same plant beyond
/// them.
pub open spec fn fence_at(grid: Seq<Seq<char>>, p: Point) -> nat {
    let around = neighbours_of(p, grid.len() as int, width_of(grid));
    (4 - alike_count(grid, p, around, around.len() as int)) as nat
}

/// The fences of the plots visited from the `lo`-th up to the `hi`-th.
pub open spec fn fence_sum(grid: Seq<Seq<char>>, visited: Seq<Point>, lo: int, hi: int) -> nat
    decreases hi - lo,
{
    if hi <= lo {
        0
    } else {
        fence_sum(grid, visited, lo, hi - 1) + fence_at(grid, visited[hi - 1])
    }
}

/// The sides counted at the plots visited from the `lo`-th up to the
/// `hi`-th, each counted when the plot is visited, with what was visited
/// by then.
pub open spec fn side_sum(grid: Seq<Seq<char>>, visited: Seq<Point>, lo: int, hi: int) -> nat
    decreases hi - lo,
{
    if hi <= lo {
        0
    } else {
        side_sum(grid, visited, lo, hi - 1) + side_count(grid, visited.take(hi), visited[hi - 1], 4)
    }
}

/// The plot `q` is among those visited from the `lo`-th up to the `hi`-th.
pub open spec fn held_in(visited: Seq<Point>, lo: int, hi: int, q: Point) -> bool {
    exists|i: int| lo <= i < hi && #[trigger] visited[i] == q
}

/// A region found on a survey.
#[derive(Debug, Clone, Copy, PartialEq, Eq)]
pub struct Region {
    pub letter: char,
    pub perimeter: u128,
    pub sides: u128,
    pub area: usize,
}

/// The region `r` is the one visited from the `lo`-th plot on: its plots
/// are the region of that plot, all of it, and its fences and sides are
/// those counted at them.
pub open spec fn describes(grid: Seq<Seq<char>>, visited: Seq<Point>, r: Region, lo: int) -> bool {
    let hi = lo + r.area;
    &&& 0 <= lo < hi <= visited.len()
    &&& on_grid(grid, visited[lo])
    &&& r.letter == grid[visited[lo].x as int][visited[lo].y as int]
    &&& forall|i: int| lo <= i < hi ==> same_bed(grid, visited[lo], #[trigger] visited[i])
    &&& forall|q: Point| #[trigger] same_bed(grid, visited[lo], q) ==> held_in(visited, lo, hi, q)
    &&& r.perimeter == fence_sum(grid, visited, lo, hi)
    &&& r.sides == side_sum(grid, visited, lo, hi)
}

/// What was summed up over visited plots stays as it is when more plots
/// are visited.
pub proof fn lemma_sums_stay(grid: Seq<Seq<char>>, v: Seq<Point>, w: Seq<Point>, lo: int, hi: int)
    requires
        0 <= lo,
        hi <= v.len() <= w.len(),
        w.take(v.len() as int) == v,
    ensures
        fence_sum(grid, w, lo, hi) == fence_sum(grid, v, lo, hi),
        side_sum(grid, w, lo, hi) == side_sum(grid, v, lo, hi),
    decreases hi - lo,
{
    if hi > lo {
        lemma_sums_stay(grid, v, w, lo, hi - 1);
        assert(w[hi - 1] == w.take(v.len() as int)[hi - 1]);
        assert(w.take(hi) =~= v.take(hi)) by {
            assert forall|i: int| 0 <= i < hi implies w.take(hi)[i] == v.take(hi)[i] by {
                assert(w[i] == w.take(v.len() as int)[i]);
            }
        }
    }
}

/// A region found stays what it is when more plots are visited.
pub proof fn lemma_describes_stays(grid: Seq<Seq<char>>, v: Seq<Point>, w: Seq<Point>, r: Region, lo: int)
    requires
        describes(grid, v, r, lo),
        v.len() <= w.len(),
        w.take(v.len() as int) == v,
    ensures
        describes(grid, w, r, lo),
{
    let hi = lo + r.area;
    lemma_sums_stay(grid, v, w, lo, hi);
    assert forall|i: int| 0 <= i < v.len() implies w[i] == v[i] by {
        assert(w[i] == w.take(v.len() as int)[i]);
    }
    assert forall|q: Point| #[trigger] same_bed(grid, w[lo], q) implies held_in(w, lo, hi, q) by {
        assert(held_in(v, lo, hi, q));
        let i = choose|i: int| lo <= i < hi && #[trigger] v[i] == q;
        assert(w[i] == q);
    }
}

/// The plots beside a plot of a tidy grid are those that the grid has
/// next to it.
pub proof fn lemma_neighbours(grid: Seq<Seq<char>>, p: Point)
    requires
        tidy(grid),
        on_grid(grid, p),
    ensures
        forall|k: int|
            0 <= k < neighbours_of(p, grid.len() as int, width_of(grid)).len() ==> on_grid(
                grid,
                #[trigger] neighbours_of(p, grid.len() as int, width_of(grid))[k],
            ) && next_to(p, neighbours_of(p, grid.len() as int, width_of(grid))[k]),
        forall|q: Point|
            on_grid(grid, q) && #[trigger] next_to(p, q) ==> neighbours_of(
                p,
                grid.len() as int,
                width_of(grid),
            ).contains(q),
{
    let rows = grid.len() as int;
    let cols = width_of(grid);
    assert(grid[p.x as int].len() == cols);
    let up = if p.x > 0 {
        seq![Point { x: (p.x - 1) as i32, y: p.y }]
    } else {
        Seq::empty()
    };
    let down = if p.x < rows - 1 && p.x < i32::MAX {
        seq![Point { x: (p.x + 1) as i32, y: p.y }]
    } else {
        Seq::empty()
    };
    let left = if p.y > 0 {
        seq![Point { x: p.x, y: (p.y - 1) as i32 }]
    } else {
        Seq::empty()
    };
    let right = if p.y < cols - 1 && p.y < i32::MAX {
        seq![Point { x: p.x, y: (p.y + 1) as i32 }]
    } else {
        Seq::empty()
    };
    let s = up + down + left + right;
    assert(s == neighbours_of(p, rows, cols));
    assert forall|k: int| 0 <= k < s.len() implies on_grid(grid, #[trigger] s[k]) && next_to(p, s[k]) by {
        let n = s[k];
        assert(grid[n.x as int].len() == cols);
    }
    assert forall|q: Point| on_grid(grid, q) && #[trigger] next_to(p, q) implies s.contains(q) by {
        assert(grid[q.x as int].len() == cols);
        if q.x == p.x - 1 {
            assert(s[0] == q);
        } else if q.x == p.x + 1 {
            assert(s[up.len() as int] == q);
        } else if q.y == p.y - 1 {
            assert(s[(up.len() + down.len()) as int] == q);
        } else {
            assert(s[(up.len() + down.len() + left.len()) as int] == q);
        }
    }
}

/// Whether the table of marks shows the plot `p` as visited.
pub open spec fn seen_at(seen: Seq<Seq<bool>>, p: Point) -> bool {
    seen[p.x as int][p.y as int]
}

/// The table of marks has a mark for every plot of the grid.
pub open spec fn covers(grid: Seq<Seq<char>>, seen: Seq<Seq<bool>>) -> bool {
    &&& seen.len() == grid.len()
    &&& forall|x: int| 0 <= x < grid.len() ==> (#[trigger] seen[x]).len() == grid[x].len()
}

/// The marks show what was visited: plots of the grid, each once.
pub open spec fn marks_show(grid: Seq<Seq<char>>, seen: Seq<Seq<bool>>, visited: Seq<Point>) -> bool {
    &&& covers(grid, seen)
    &&& forall|p: Point| on_grid(grid, p) ==> (#[trigger] seen_at(seen, p) <==> visited.contains(p))
    &&& visited.no_duplicates()
    &&& forall|i: int| 0 <= i < visited.len() ==> on_grid(grid, #[trigger] visited[i])
    &&& marked_in_rows(seen, grid.len() as int) == visited.len()
}

/// What is joined to a visited plot is visited.
pub open spec fn closed_seq(grid: Seq<Seq<char>>, visited: Seq<Point>) -> bool {
    forall|p: Point, q: Point| visited.contains(p) && #[trigger] joined(grid, p, q) ==> visited.contains(q)
}

/// The plot `q` waits in the queue at or behind `head`.
pub open spec fn pending(queue: Seq<Point>, head: int, q: Point) -> bool {
    exists|j: int| head <= j < queue.len() && #[trigger] queue[j] == q
}

/// Whether the plot is marked as visited.
pub fn is_seen(seen: &Vec<Vec<bool>>, p: Point) -> (b: bool)
    requires
        0 <= p.x < seen.len(),
        0 <= p.y < seen[p.x as int].len(),
    ensures
        b == seen_at(views(seen@), p),
{
    assert(views(seen@)[p.x as int] == seen@[p.x as int]@);
    seen[p.x as usize][p.y as usize]
}

/// Visits a plot: marks it and puts it last among the visited.
pub fn visit(grid: &Vec<Vec<char>>, seen: &mut Vec<Vec<bool>>, visited: &mut Vec<Point>, p: Point)
    requires
        tidy(views(grid@)),
        marks_show(views(grid@), views(old(seen)@), old(visited)@),
        on_grid(views(grid@), p),
        !seen_at(views(old(seen)@), p),
    ensures
        marks_show(views(grid@), views(final(seen)@), final(visited)@),
        final(visited)@ == old(visited)@.push(p),
        final(visited).len() <= grid.len() * width_of(views(grid@)),
{
    let ghost g = views(grid@);
    let ghost a = views(seen@);
    let ghost v = visited@;
    set_mark(seen, p.y as i128, p.x as i128);
    visited.push(p);
    proof {
        let b = views(seen@);
        let w = visited@;
        assert(covers(g, b));
        assert(b[p.x as int][p.y as int]);
        lemma_rows_plus(a, b, (p.y as int, p.x as int), g.len() as int);
        assert forall|q: Point| on_grid(g, q) implies (#[trigger] seen_at(b, q) <==> w.contains(q)) by {
            assert(seen_at(a, q) <==> v.contains(q));
            assert(b[q.x as int][q.y as int] <==> a[q.x as int][q.y as int] || (q.y == p.y && q.x == p.x));
            if v.contains(q) {
                let i = choose|i: int| 0 <= i < v.len() && v[i] == q;
                assert(w[i] == q);
            }
            if q == p {
                assert(w[v.len() as int] == q);
            }
        }
        assert(!v.contains(p));
        assert forall|i: int, j: int| 0 <= i < w.len() && 0 <= j < w.len() && i != j implies w[i]
            != w[j] by {
            if i < v.len() && j < v.len() {
                assert(v[i] != v[j]);
            } else if i < v.len() {
                assert(v.contains(v[i]));
            } else {
                assert(v.contains(v[j]));
            }
        }
        assert(forall|x: int| 0 <= x < b.len() ==> (#[trigger] b[x]).len() == width_of(g));
        lemma_marked_rows_bound(b, g.len() as int, width_of(g));
    }
}

/// Puts in the queue every plot joined to `p` that is not marked as
/// visited.
pub fn enqueue_neighbours(grid: &Vec<Vec<char>>, seen: &Vec<Vec<bool>>, queue: &mut Vec<Point>, p: Point)
    requires
        tidy(views(grid@)),
        covers(views(grid@), views(seen@)),
        on_grid(views(grid@), p),
    ensures
        final(queue).len() >= old(queue).len(),
        final(queue)@.take(old(queue).len() as int) == old(queue)@,
        forall|j: int|
            old(queue).len() <= j < final(queue).len() ==> joined(views(grid@), p, #[trigger] final(queue)[j]),
        forall|q: Point| #[trigger]
            joined(views(grid@), p, q) ==> seen_at(views(seen@), q) || pending(
                final(queue)@,
                old(queue).len() as int,
                q,
            ),
{
    let ghost g = views(grid@);
    let ghost q0 = queue@;
    proof {
        lemma_neighbours(g, p);
        if grid.len() > 0 {
            assert(g[0] == grid@[0]@);
        }
    }
    let around = p.neighbours(grid);
    let here = p.get(grid);
    let mut k: usize = 0;
    assert(queue@.take(q0.len() as int) =~= q0);
    while k < around.len()
        invariant
            k <= around.len(),
            g == views(grid@),
            tidy(g),
            covers(g, views(seen@)),
            on_grid(g, p),
            here == crate::wordsearch::letter(g, p.x as int, p.y as int),
            around@ == neighbours_of(p, g.len() as int, width_of(g)),
            forall|t: int| 0 <= t < around.len() ==> on_grid(g, #[trigger] around@[t]) && next_to(p, around@[t]),
            queue.len() >= q0.len(),
            queue@.take(q0.len() as int) == q0,
            forall|j: int| q0.len() <= j < queue.len() ==> joined(g, p, #[trigger] queue[j]),
            forall|t: int|
                0 <= t < k && joined(g, p, #[trigger] around@[t]) ==> seen_at(views(seen@), around@[t])
                    || pending(queue@, q0.len() as int, around@[t]),
        decreases around.len() - k,
    {
        let n = around[k];
        assert(on_grid(g, n));
        assert(g[n.x as int] == grid@[n.x as int]@);
        assert(views(seen@)[n.x as int] == seen@[n.x as int]@);
        let there = n.get(grid);
        let alike = match (there, here) {
            (Some(a), Some(b)) => a == b,
            _ => false,
        };
        assert(alike == joined(g, p, n));
        let ghost before = queue@;
        if alike && !is_seen(seen, n) {
            queue.push(n);
            assert(queue@.take(q0.len() as int) =~= q0);
            assert(queue@[before.len() as int] == n);
        }
        proof {
            assert forall|t: int| 0 <= t < k + 1 && joined(g, p, #[trigger] around@[t]) implies seen_at(
                views(seen@),
                around@[t],
            ) || pending(queue@, q0.len() as int, around@[t]) by {
                if t < k {
                    if pending(before, q0.len() as int, around@[t]) {
                        let j = choose|j: int| q0.len() <= j < before.len() && #[trigger] before[j] == around@[t];
                        assert(queue@[j] == around@[t]);
                    }
                }
            }
        }
        k += 1;
    }
    proof {
        assert forall|q: Point| #[trigger] joined(g, p, q) implies seen_at(views(seen@), q) || pending(
            queue@,
            q0.len() as int,
            q,
        ) by {
            assert(around@.contains(q));
            let t = choose|t: int| 0 <= t < around@.len() && around@[t] == q;
            assert(joined(g, p, around@[t]));
        }
    }
}

/// No more sides are counted than directions are looked at.
pub proof fn lemma_side_count_bound(grid: Seq<Seq<char>>, visited: Seq<Point>, p: Point, n: int)
    requires
        0 <= n,
    ensures
        side_count(grid, visited, p, n) <= n,
    decreases n,
{
    if n > 0 {
        lemma_side_count_bound(grid, visited, p, n - 1);
    }
}

/// Surveys the region of an unvisited plot: visits its plots in the
/// order in which they are found, each from a plot beside it, and counts
/// their fences and sides on the way.
pub fn explore(grid: &Vec<Vec<char>>, seen: &mut Vec<Vec<bool>>, visited: &mut Vec<Point>, seed: Point) -> (r:
    Region)
    requires
        tidy(views(grid@)),
        marks_show(views(grid@), views(old(seen)@), old(visited)@),
        closed_seq(views(grid@), old(visited)@),
        on_grid(views(grid@), seed),
        !old(visited)@.contains(seed),
    ensures
        marks_show(views(grid@), views(final(seen)@), final(visited)@),
        closed_seq(views(grid@), final(visited)@),
        final(visited).len() == old(visited).len() + r.area,
        final(visited)@.take(old(visited).len() as int) == old(visited)@,
        final(visited)@[old(visited).len() as int] == seed,
        describes(views(grid@), final(visited)@, r, old(visited).len() as int),
{
    let ghost g = views(grid@);
    let ghost v0 = visited@;
    let ghost lo = visited.len() as int;
    assert(g[seed.x as int] == grid@[seed.x as int]@);
    let letter = grid[seed.x as usize][seed.y as usize];
    let mut queue: Vec<Point> = Vec::new();
    queue.push(seed);
    let mut head: usize = 0;
    let mut area: usize = 0;
    let mut perimeter: u128 = 0;
    let mut sides: u128 = 0;
    proof {
        assert(visited@.take(lo) =~= v0);
        assert(queue@ =~= seq![seed]);
        lemma_bed_self(g, seed);
        let b = views(seen@);
        assert(forall|x: int| 0 <= x < b.len() ==> (#[trigger] b[x]).len() == width_of(g));
        lemma_marked_rows_bound(b, g.len() as int, width_of(g));
    }
    while head < queue.len()
        invariant
            g == views(grid@),
            tidy(g),
            marks_show(g, views(seen@), visited@),
            closed_seq(g, v0),
            !v0.contains(seed),
            on_grid(g, seed),
            lo == v0.len(),
            lo <= visited.len() <= g.len() * width_of(g),
            visited@.take(lo) == v0,
            area == visited.len() - lo,
            head <= queue.len(),
            forall|j: int| 0 <= j < queue.len() ==> on_grid(g, #[trigger] queue[j]) && same_bed(g, seed, queue[j]),
            forall|i: int| lo <= i < visited.len() ==> same_bed(g, seed, #[trigger] visited[i]),
            forall|i: int, q: Point|
                lo <= i < visited.len() && #[trigger] joined(g, visited[i], q) ==> visited@.contains(q)
                    || pending(queue@, head as int, q),
            visited.len() == lo ==> queue@ == seq![seed] && head == 0,
            visited.len() > lo ==> visited[lo] == seed,
            perimeter == fence_sum(g, visited@, lo, visited.len() as int),
            sides == side_sum(g, visited@, lo, visited.len() as int),
            perimeter <= 4 * area,
            sides <= 4 * area,
        decreases g.len() * width_of(g) - visited.len(), queue.len() - head,
    {
        let p = queue[head];
        let ghost queue0 = queue@;
        let ghost head0 = head as int;
        let ghost v = visited@;
        head += 1;
        assert(on_grid(g, p));
        assert(g[p.x as int] == grid@[p.x as int]@);
        assert(views(seen@)[p.x as int] == seen@[p.x as int]@);
        if is_seen(seen, p) {
            proof {
                assert(v.contains(p));
                assert forall|i: int, q: Point| lo <= i < v.len() && #[trigger] joined(g, v[i], q) implies v.contains(
                    q,
                ) || pending(queue@, head as int, q) by {
                    if !v.contains(q) {
                        assert(pending(queue0, head0, q));
                        let j = choose|j: int| head0 <= j < queue0.len() && #[trigger] queue0[j] == q;
                        assert(j != head0);
                        assert(head <= j < queue@.len() && queue@[j] == q);
                    }
                }
                if v.len() == lo {
                    assert(v =~= v0);
                    assert(p == seed);
                }
            }
        } else {
            visit(grid, seen, visited, p);
            let ghost w = visited@;
            area += 1;
            let fences = p.perimeter_at_point(grid);
            let counted = p.sides(grid, visited);
            proof {
                if grid.len() > 0 {
                    assert(g[0] == grid@[0]@);
                }
                assert(w.take(v.len() as int) =~= v);
                lemma_sums_stay(g, v, w, lo, v.len() as int);
                assert(w.take(w.len() as int) =~= w);
                assert(fences == fence_at(g, p));
                lemma_side_count_bound(g, w, p, 4);
            }
            perimeter += fences as u128;
            sides += counted as u128;
            enqueue_neighbours(grid, seen, &mut queue, p);
            proof {
                assert(w.take(lo) =~= v0);
                assert forall|j: int| 0 <= j < queue.len() implies on_grid(g, #[trigger] queue[j]) && same_bed(
                    g,
                    seed,
                    queue[j],
                ) by {
                    if j < queue0.len() {
                        assert(queue@[j] == queue@.take(queue0.len() as int)[j]);
                    } else {
                        lemma_bed_grows(g, seed, p, queue[j]);
                    }
                }
                assert forall|i: int, q: Point| lo <= i < w.len() && #[trigger] joined(g, w[i], q) implies w.contains(
                    q,
                ) || pending(queue@, head as int, q) by {
                    if i < v.len() {
                        assert(joined(g, v[i], q));
                        if v.contains(q) {
                            let t = choose|t: int| 0 <= t < v.len() && v[t] == q;
                            assert(w[t] == q);
                        } else {
                            assert(pending(queue0, head0, q));
                            let j = choose|j: int| head0 <= j < queue0.len() && #[trigger] queue0[j] == q;
                            if j == head0 {
                                assert(w[v.len() as int] == q);
                            } else {
                                assert(queue@[j] == queue@.take(queue0.len() as int)[j]);
                                assert(head <= j < queue@.len() && queue@[j] == q);
                            }
                        }
                    } else {
                        assert(w[i] == p);
                        if !seen_at(views(seen@), q) {
                            let j = choose|j: int| queue0.len() <= j < queue@.len() && #[trigger] queue@[j] == q;
                            assert(head <= j < queue@.len() && queue@[j] == q);
                        }
                    }
                }
                if v.len() == lo {
                    assert(p == seed);
                    assert(w[lo] == seed);
                } else {
                    assert(w[lo] == v[lo]);
                }
            }
        }
    }
    proof {
        let w = visited@;
        let hi = w.len() as int;
        assert forall|q: Point| !pending(queue@, head as int, q) by {}
        assert(hi > lo);
        assert forall|a: Point, b: Point| w.contains(a) && #[trigger] joined(g, a, b) implies w.contains(b) by {
            let i = choose|i: int| 0 <= i < w.len() && w[i] == a;
            if i < lo {
                assert(w[i] == w.take(lo)[i]);
                assert(v0.contains(a));
                assert(v0.contains(b));
                let t = choose|t: int| 0 <= t < v0.len() && v0[t] == b;
                assert(w[t] == w.take(lo)[t]);
            }
        }
        let inside = |a: Point| w.contains(a);
        let before = |a: Point| v0.contains(a);
        assert(closed(g, inside));
        assert(closed(g, before));
        assert forall|q: Point| #[trigger] same_bed(g, w[lo], q) implies held_in(w, lo, hi, q) by {
            lemma_closed_bed(g, inside, seed, q);
            assert(w.contains(q));
            let i = choose|i: int| 0 <= i < w.len() && w[i] == q;
            if i < lo {
                assert(w[i] == w.take(lo)[i]);
                assert(v0.contains(q));
                lemma_closed_bed(g, before, seed, q);
            }
            assert(lo <= i < hi && w[i] == q);
        }
    }
    Region { letter, perimeter, sides, area }
}

/// How many plots the first `k` regions have.
pub open spec fn offset(regions: Seq<Region>, k: int) -> int
    decreases k,
{
    if k <= 0 {
        0
    } else {
        offset(regions, k - 1) + regions[k - 1].area
    }
}

/// One more region leaves the plots of those before it where they are.
pub proof fn lemma_offset_push(regions: Seq<Region>, r: Region, k: int)
    requires
        k <= regions.len(),
    ensures
        offset(regions.push(r), k) == offset(regions, k),
    decreases k,
{
    if k > 0 {
        lemma_offset_push(regions, r, k - 1);
    }
}

/// A survey: the regions in the order in which they were found, and the
/// plots in the order in which they were visited, region after region.
pub struct Survey {
    pub regions: Vec<Region>,
    pub visited: Vec<Point>,
}

/// The survey is one of the grid: every plot was visited once, and each
/// region is the one visited where the regions before it end.
pub open spec fn surveyed(grid: Seq<Seq<char>>, regions: Seq<Region>, visited: Seq<Point>) -> bool {
    &&& visited.no_duplicates()
    &&& forall|p: Point| on_grid(grid, p) <==> #[trigger] visited.contains(p)
    &&& offset(regions, regions.len() as int) == visited.len()
    &&& forall|k: int|
        0 <= k < regions.len() ==> describes(grid, visited, #[trigger] regions[k], offset(regions, k))
}

/// Each region is the one visited where the regions before it end, and
/// together they hold what was visited.
pub open spec fn all_described(grid: Seq<Seq<char>>, regions: Seq<Region>, visited: Seq<Point>) -> bool {
    &&& offset(regions, regions.len() as int) == visited.len()
    &&& forall|k: int|
        0 <= k < regions.len() ==> describes(grid, visited, #[trigger] regions[k], offset(regions, k))
}

/// Explores the region of the plot `p` unless the plot was visited.
pub fn survey_plot(
    grid: &Vec<Vec<char>>,
    seen: &mut Vec<Vec<bool>>,
    visited: &mut Vec<Point>,
    regions: &mut Vec<Region>,
    p: Point,
)
    requires
        tidy(views(grid@)),
        marks_show(views(grid@), views(old(seen)@), old(visited)@),
        closed_seq(views(grid@), old(visited)@),
        all_described(views(grid@), old(regions)@, old(visited)@),
        on_grid(views(grid@), p),
    ensures
        marks_show(views(grid@), views(final(seen)@), final(visited)@),
        closed_seq(views(grid@), final(visited)@),
        all_described(views(grid@), final(regions)@, final(visited)@),
        final(visited)@.contains(p),
        forall|q: Point| old(visited)@.contains(q) ==> #[trigger] final(visited)@.contains(q),
{
    let ghost g = views(grid@);
    assert(g[p.x as int] == grid@[p.x as int]@);
    assert(views(seen@)[p.x as int] == seen@[p.x as int]@);
    if !is_seen(seen, p) {
        let ghost v = visited@;
        let ghost rs = regions@;
        let r = explore(grid, seen, visited, p);
        regions.push(r);
        proof {
            let w = visited@;
            assert forall|k: int| 0 <= k < regions.len() implies describes(
                g,
                w,
                #[trigger] regions[k],
                offset(regions@, k),
            ) by {
                lemma_offset_push(rs, r, k);
                if k < rs.len() {
                    assert(regions[k] == rs[k]);
                    lemma_describes_stays(g, v, w, rs[k], offset(rs, k));
                }
            }
            lemma_offset_push(rs, r, rs.len() as int);
            assert(w[v.len() as int] == p);
            assert forall|q: Point| v.contains(q) implies #[trigger] w.contains(q) by {
                let i = choose|i: int| 0 <= i < v.len() && v[i] == q;
                assert(w[i] == w.take(v.len() as int)[i]);
            }
        }
    }
}

/// Every plot of the grid before the `y`-th of row `x` was visited.
pub open spec fn done_before(grid: Seq<Seq<char>>, visited: Seq<Point>, x: int, y: int) -> bool {
    forall|q: Point| #[trigger] on_grid(grid, q) && (q.x < x || (q.x == x && q.y < y)) ==> visited.contains(q)
}

/// Surveys a grid of garden plots: row by row, each plot that was not
/// visited yet has its region explored. There is no survey of a grid that
/// is not tidy.
pub fn survey(grid: &Vec<Vec<char>>) -> (r: Option<Survey>)
    ensures
        r is Some <==> tidy(views(grid@)),
        r is Some ==> surveyed(views(grid@), r.unwrap().regions@, r.unwrap().visited@),
{
    if !check_tidy(grid) {
        return None;
    }
    let ghost g = views(grid@);
    let rows = grid.len();
    let cols = if rows > 0 {
        grid[0].len()
    } else {
        0
    };
    proof {
        if rows > 0 {
            assert(g[0] == grid@[0]@);
        }
    }
    let mut seen = blank_marks(rows, cols);
    let mut visited: Vec<Point> = Vec::new();
    let mut regions: Vec<Region> = Vec::new();
    proof {
        let b = views(seen@);
        assert(covers(g, b));
        lemma_no_marks(b, rows as int);
    }
    let mut x: usize = 0;
    while x < rows
        invariant
            x <= rows,
            rows == grid.len(),
            cols == width_of(g),
            g == views(grid@),
            tidy(g),
            marks_show(g, views(seen@), visited@),
            closed_seq(g, visited@),
            all_described(g, regions@, visited@),
            done_before(g, visited@, x as int, 0),
        decreases rows - x,
    {
        let mut y: usize = 0;
        while y < cols
            invariant
                x < rows,
                y <= cols,
                rows == grid.len(),
                cols == width_of(g),
                g == views(grid@),
                tidy(g),
                marks_show(g, views(seen@), visited@),
                closed_seq(g, visited@),
                all_described(g, regions@, visited@),
                done_before(g, visited@, x as int, y as int),
            decreases cols - y,
        {
            let p = Point { x: x as i32, y: y as i32 };
            assert(g[x as int].len() == cols);
            let ghost v = visited@;
            survey_plot(grid, &mut seen, &mut visited, &mut regions, p);
            proof {
                assert forall|q: Point| #[trigger]
                    on_grid(g, q) && (q.x < x || (q.x == x && q.y < y + 1)) implies visited@.contains(
                    q,
                ) by {
                    if q != p {
                        assert(v.contains(q));
                    }
                }
            }
            y += 1;
        }
        proof {
            assert forall|q: Point| #[trigger] on_grid(g, q) && (q.x < x + 1 || (q.x == x + 1 && q.y < 0))
                implies visited@.contains(q) by {
                assert(g[q.x as int].len() == cols);
            }
        }
        x += 1;
    }
    proof {
        assert forall|p: Point| on_grid(g, p) <==> #[trigger] visited@.contains(p) by {
            if visited@.contains(p) {
                let i = choose|i: int| 0 <= i < visited@.len() && visited@[i] == p;
                assert(on_grid(g, visited@[i]));
            }
        }
    }
    Some(Survey { regions, visited })
}

/// A table without marks counts none.
pub proof fn lemma_no_marks(marks: Seq<Seq<bool>>, bound: int)
    requires
        0 <= bound <= marks.len(),
        forall|x: int, y: int| 0 <= y < marks.len() && 0 <= x < marks[y].len() ==> !#[trigger] marks[y][x],
    ensures
        marked_in_rows(marks, bound) == 0,
    decreases bound,
{
    if bound > 0 {
        lemma_no_marks(marks, bound - 1);
        lemma_no_marks_in_row(marks, bound - 1, marks[bound - 1].len() as int);
    }
}

proof fn lemma_no_marks_in_row(marks: Seq<Seq<bool>>, y: int, bound: int)
    requires
        0 <= y < marks.len(),
        0 <= bound <= marks[y].len(),
        forall|x: int, y: int| 0 <= y < marks.len() && 0 <= x < marks[y].len() ==> !#[trigger] marks[y][x],
    ensures
        crate::marks::marked_in_row(marks, y, bound) == 0,
    decreases bound,
{
    if bound > 0 {
        lemma_no_marks_in_row(marks, y, bound - 1);
    }
}

/// What a region costs: its area times its perimeter or, by sides, times
/// the greatest even number that its sides reach.
pub open spec fn region_cost(r: Region, by_sides: bool) -> nat {
    if by_sides {
        (r.area * (r.sides - r.sides % 2)) as nat
    } else {
        (r.area * r.perimeter) as nat
    }
}

/// What the first `n` regions cost.
pub open spec fn cost_sum(regions: Seq<Region>, by_sides: bool, n: int) -> nat
    decreases n,
{
    if n <= 0 {
        0
    } else {
        cost_sum(regions, by_sides, n - 1) + region_cost(regions[n - 1], by_sides)
    }
}

/// More regions cost no less.
pub proof fn lemma_cost_grows(regions: Seq<Region>, by_sides: bool, n: int, m: int)
    requires
        n <= m,
    ensures
        cost_sum(regions, by_sides, n) <= cost_sum(regions, by_sides, m),
    decreases m - n,
{
    if n < m {
        lemma_cost_grows(regions, by_sides, n, m - 1);
    }
}

/// Adds up what the regions cost. There is no total beyond 128 bits.
pub fn total_cost(regions: &Vec<Region>, by_sides: bool) -> (r: Option<u128>)
    ensures
        match r {
            Some(t) => t == cost_sum(regions@, by_sides, regions.len() as int),
            None => cost_sum(regions@, by_sides, regions.len() as int) > u128::MAX,
        },
{
    let mut total: u128 = 0;
    let mut k: usize = 0;
    while k < regions.len()
        invariant
            k <= regions.len(),
            total == cost_sum(regions@, by_sides, k as int),
        decreases regions.len() - k,
    {
        let r = regions[k];
        let factor: u128 = if by_sides {
            r.sides - r.sides % 2
        } else {
            r.perimeter
        };
        proof {
            lemma_cost_grows(regions@, by_sides, k + 1, regions.len() as int);
        }
        let cost = match (r.area as u128).checked_mul(factor) {
            Some(c) => c,
            None => {
                return None;
            },
        };
        total = match total.checked_add(cost) {
            Some(t) => t,
            None => {
                return None;
            },
        };
        k += 1;
    }
    Some(total)
}

} // verus!
