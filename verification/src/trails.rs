//! Hiking trails on a map of heights: a trail climbs by exactly one from
//! each place to the next and ends at height 9.

use vstd::prelude::*;
use crate::text::{chars_of, digit_of, digit_value, lines_of, split_lines, views};

verus! {

/// The height at row `r` and column `c`, if the map has a place there.
pub open spec fn height(map: Seq<Seq<u8>>, r: int, c: int) -> Option<u8> {
    if 0 <= r < map.len() && 0 <= c < map[r].len() {
        Some(map[r][c])
    } else {
        None
    }
}

/// The four neighbours of a place: to the right, below, to the left, above.
pub open spec fn beside(p: (usize, usize), d: int) -> (int, int) {
    if d == 0 {
        (p.0 as int, p.1 + 1)
    } else if d == 1 {
        (p.0 + 1, p.1 as int)
    } else if d == 2 {
        (p.0 as int, p.1 - 1)
    } else {
        (p.0 - 1, p.1 as int)
    }
}

/// `b` is the neighbour of `a` in the direction `d`.
pub open spec fn toward(a: (usize, usize), d: int, b: (usize, usize)) -> bool {
    beside(a, d) == (b.0 as int, b.1 as int)
}

/// `b` is a neighbour of `a` that lies exactly one higher.
pub open spec fn uphill(map: Seq<Seq<u8>>, a: (usize, usize), b: (usize, usize)) -> bool {
    &&& exists|d: int| 0 <= d < 4 && #[trigger] beside(a, d) == (b.0 as int, b.1 as int)
    &&& height(map, a.0 as int, a.1 as int) is Some
    &&& height(map, b.0 as int, b.1 as int) is Some
    &&& height(map, b.0 as int, b.1 as int).unwrap() == height(map, a.0 as int, a.1 as int).unwrap()
        + 1
}

/// The step from the `i`-th place of `p` to the next goes uphill.
pub open spec fn climb_step(map: Seq<Seq<u8>>, p: Seq<(usize, usize)>, i: int) -> bool {
    uphill(map, p[i], p[i + 1])
}

/// A climb is a sequence of at least two places, each one higher than the
/// one before it.
pub open spec fn is_climb(map: Seq<Seq<u8>>, p: Seq<(usize, usize)>) -> bool {
    &&& p.len() >= 2
    &&& forall|i: int| 0 <= i < p.len() - 1 ==> #[trigger] climb_step(map, p, i)
}

/// A climb leads from `a` to `b`.
pub open spec fn climbs_to(map: Seq<Seq<u8>>, a: (usize, usize), b: (usize, usize)) -> bool {
    exists|p: Seq<(usize, usize)>| #[trigger] is_climb(map, p) && p[0] == a && p.last() == b
}

/// Reads a map of heights from text, one row of digits per line.
pub fn parse_map(input: &str) -> (r: Option<Vec<Vec<u8>>>)
    ensures
        match r {
            Some(map) => {
                let lines = lines_of(input@);
                &&& map.len() == lines.len()
                &&& forall|y: int|
                    0 <= y < lines.len() ==> (#[trigger] map@[y])@.len() == lines[y].len()
                &&& forall|y: int, x: int|
                    0 <= y < lines.len() && 0 <= x < lines[y].len() ==> digit_of(
                        #[trigger] lines[y][x],
                    ) == Some(map@[y]@[x] as nat)
            },
            None => exists|y: int, x: int|
                0 <= y < lines_of(input@).len() && 0 <= x < lines_of(input@)[y].len() && digit_of(
                    #[trigger] lines_of(input@)[y][x],
                ) is None,
        },
{
    let text = chars_of(input);
    let lines = split_lines(&text);
    let ghost all = views(lines@);
    let mut map: Vec<Vec<u8>> = Vec::new();
    let mut y: usize = 0;
    while y < lines.len()
        invariant
            y <= lines.len(),
            all == views(lines@),
            all == lines_of(input@),
            map.len() == y,
            forall|k: int| 0 <= k < y ==> (#[trigger] map@[k])@.len() == all[k].len(),
            forall|k: int, x: int|
                0 <= k < y && 0 <= x < all[k].len() ==> digit_of(#[trigger] all[k][x]) == Some(
                    map@[k]@[x] as nat,
                ),
        decreases lines.len() - y,
    {
        let line = &lines[y];
        assert(all[y as int] == line@);
        let mut row: Vec<u8> = Vec::new();
        let mut x: usize = 0;
        while x < line.len()
            invariant
                x <= line.len(),
                y < lines.len(),
                all == views(lines@),
                all == lines_of(input@),
                all[y as int] == line@,
                row.len() == x,
                forall|k: int| 0 <= k < x ==> digit_of(#[trigger] line@[k]) == Some(row@[k] as nat),
            decreases line.len() - x,
        {
            match digit_value(line[x]) {
                Some(d) => {
                    row.push(d);
                },
                None => {
                    assert(digit_of(all[y as int][x as int]) is None);
                    return None;
                },
            }
            x += 1;
        }
        map.push(row);
        y += 1;
    }
    Some(map)
}

/// The height of a place, if the map has it.
pub fn height_at(map: &Vec<Vec<u8>>, r: usize, c: usize) -> (h: Option<u8>)
    ensures
        h == height(views(map@), r as int, c as int),
{
    if r >= map.len() {
        return None;
    }
    let row = &map[r];
    assert(views(map@)[r as int] == row@);
    if c >= row.len() {
        return None;
    }
    Some(row[c])
}

/// The neighbour of `p` in the direction `d`, if it lies one higher than
/// `p`.
pub fn uphill_neighbor(map: &Vec<Vec<u8>>, p: (usize, usize), d: u8) -> (r: Option<(usize, usize)>)
    requires
        d < 4,
    ensures
        match r {
            Some(n) => beside(p, d as int) == (n.0 as int, n.1 as int) && uphill(views(map@), p, n),
            None => forall|n: (usize, usize)|
                beside(p, d as int) == (n.0 as int, n.1 as int) ==> !uphill(views(map@), p, n),
        },
{
    let here = match height_at(map, p.0, p.1) {
        Some(h) => h,
        None => {
            return None;
        },
    };
    let target: Option<(usize, usize)> = if d == 0 {
        if p.1 == usize::MAX {
            None
        } else {
            Some((p.0, p.1 + 1))
        }
    } else if d == 1 {
        if p.0 == usize::MAX {
            None
        } else {
            Some((p.0 + 1, p.1))
        }
    } else if d == 2 {
        if p.1 == 0 {
            None
        } else {
            Some((p.0, p.1 - 1))
        }
    } else {
        if p.0 == 0 {
            None
        } else {
            Some((p.0 - 1, p.1))
        }
    };
    match target {
        None => None,
        Some(n) => match height_at(map, n.0, n.1) {
            Some(h) => {
                if here < 255 && h == here + 1 {
                    assert(beside(p, d as int) == (n.0 as int, n.1 as int));
                    Some(n)
                } else {
                    None
                }
            },
            None => None,
        },
    }
}

/// The neighbour of `p` in the direction `d`, if it lies one higher.
pub open spec fn uphill_in(map: Seq<Seq<u8>>, p: (usize, usize), d: int) -> Seq<(usize, usize)> {
    let n = ((beside(p, d).0) as usize, (beside(p, d).1) as usize);
    if 0 <= beside(p, d).0 <= usize::MAX && 0 <= beside(p, d).1 <= usize::MAX && uphill(map, p, n) {
        seq![n]
    } else {
        Seq::empty()
    }
}

/// The neighbours of `p` in the directions before `bound` that lie one
/// higher.
pub open spec fn uphill_before(map: Seq<Seq<u8>>, p: (usize, usize), bound: int) -> Seq<(usize, usize)>
    decreases bound,
{
    if bound <= 0 {
        Seq::empty()
    } else {
        uphill_before(map, p, bound - 1) + uphill_in(map, p, bound - 1)
    }
}

/// The places one step uphill from `p`, in the order right, below, left,
/// above.
pub open spec fn uphill_from(map: Seq<Seq<u8>>, p: (usize, usize)) -> Seq<(usize, usize)> {
    uphill_before(map, p, 4)
}

/// The places next to `(x, y)` that lie exactly one higher.
pub fn valid_neighbors(map: &Vec<Vec<u8>>, x: usize, y: usize) -> (neighbors: Vec<(usize, usize)>)
    ensures
        neighbors@ == uphill_from(views(map@), (x, y)),
{
    let ghost m = views(map@);
    let ghost p = (x, y);
    let mut neighbors: Vec<(usize, usize)> = Vec::new();
    let mut d: u8 = 0;
    while d < 4
        invariant
            d <= 4,
            m == views(map@),
            p == (x, y),
            neighbors@ == uphill_before(m, p, d as int),
        decreases 4 - d,
    {
        let ghost before = neighbors@;
        match uphill_neighbor(map, (x, y), d) {
            Some(n) => {
                neighbors.push(n);
                assert(uphill_in(m, p, d as int) =~= seq![n]);
                assert(neighbors@ =~= before + uphill_in(m, p, d as int));
            },
            None => {
                assert(uphill_in(m, p, d as int) =~= Seq::<(usize, usize)>::empty());
                assert(neighbors@ =~= before + uphill_in(m, p, d as int));
            },
        }
        d += 1;
    }
    neighbors
}

/// The marks have the shape of the map.
pub open spec fn same_shape(map: Seq<Seq<u8>>, seen: Seq<Seq<bool>>) -> bool {
    &&& seen.len() == map.len()
    &&& forall|r: int| 0 <= r < map.len() ==> (#[trigger] seen[r]).len() == map[r].len()
}

/// The place is marked.
pub open spec fn marked(seen: Seq<Seq<bool>>, p: (usize, usize)) -> bool {
    p.0 < seen.len() && p.1 < seen[p.0 as int].len() && seen[p.0 as int][p.1 as int]
}

/// Every marked place at height `h` or above has all its uphill neighbours
/// marked.
pub open spec fn closed_above(map: Seq<Seq<u8>>, seen: Seq<Seq<bool>>, h: int) -> bool {
    forall|a: (usize, usize), b: (usize, usize)|
        marked(seen, a) && height(map, a.0 as int, a.1 as int).unwrap() >= h && #[trigger] uphill(
            map,
            a,
            b,
        ) ==> marked(seen, b)
}

/// Marks one place.
fn mark(seen: &mut Vec<Vec<bool>>, p: (usize, usize))
    requires
        p.0 < old(seen).len(),
        p.1 < old(seen)[p.0 as int].len(),
    ensures
        views(final(seen)@).len() == views(old(seen)@).len(),
        forall|r: int|
            0 <= r < views(old(seen)@).len() ==> (#[trigger] views(final(seen)@)[r]).len() == views(
                old(seen)@,
            )[r].len(),
        forall|q: (usize, usize)|
            marked(views(final(seen)@), q) <==> marked(views(old(seen)@), q) || q == p,
{
    let mut row: Vec<bool> = Vec::new();
    seen.set_and_swap(p.0, &mut row);
    row.set(p.1, true);
    seen.set(p.0, row);
}

/// Marks every place that a climb from `p` leads to.
fn explore(map: &Vec<Vec<u8>>, p: (usize, usize), seen: &mut Vec<Vec<bool>>)
    requires
        height(views(map@), p.0 as int, p.1 as int) is Some,
        same_shape(views(map@), views(old(seen)@)),
        closed_above(
            views(map@),
            views(old(seen)@),
            height(views(map@), p.0 as int, p.1 as int).unwrap() + 1,
        ),
    ensures
        same_shape(views(map@), views(final(seen)@)),
        closed_above(
            views(map@),
            views(final(seen)@),
            height(views(map@), p.0 as int, p.1 as int).unwrap() + 1,
        ),
        forall|b: (usize, usize)| #[trigger] uphill(views(map@), p, b) ==> marked(views(final(seen)@), b),
        forall|q: (usize, usize)| marked(views(old(seen)@), q) ==> marked(views(final(seen)@), q),
        forall|q: (usize, usize)|
            marked(views(final(seen)@), q) ==> marked(views(old(seen)@), q) || climbs_to(
                views(map@),
                p,
                q,
            ),
    decreases 255 - height(views(map@), p.0 as int, p.1 as int).unwrap(),
{
    let ghost m = views(map@);
    let ghost h = height(m, p.0 as int, p.1 as int).unwrap() as int;
    let ghost start = views(seen@);
    let mut d: u8 = 0;
    while d < 4
        invariant
            d <= 4,
            m == views(map@),
            h == height(m, p.0 as int, p.1 as int).unwrap(),
            height(m, p.0 as int, p.1 as int) is Some,
            same_shape(m, views(seen@)),
            closed_above(m, views(seen@), h + 1),
            forall|b: (usize, usize), k: int|
                0 <= k < d && #[trigger] toward(p, k, b) && uphill(m, p, b) ==> marked(views(seen@), b),
            forall|q: (usize, usize)| marked(start, q) ==> marked(views(seen@), q),
            forall|q: (usize, usize)| marked(views(seen@), q) ==> marked(start, q) || climbs_to(m, p, q),
        decreases 4 - d,
    {
        let ghost before = views(seen@);
        match uphill_neighbor(map, p, d) {
            None => {},
            Some(n) => {
                assert(uphill(m, p, n));
                assert(views(seen@)[n.0 as int].len() == m[n.0 as int].len());
                assert(views(seen@)[n.0 as int] == seen@[n.0 as int]@);
                let already = seen[n.0][n.1];
                if !already {
                    mark(seen, n);
                    let ghost mid = views(seen@);
                    proof {
                        assert(same_shape(m, mid));
                        assert forall|a: (usize, usize), b: (usize, usize)|
                            marked(mid, a) && height(m, a.0 as int, a.1 as int).unwrap() >= h + 2
                                && #[trigger] uphill(m, a, b) implies marked(mid, b) by {
                            assert(a != n);
                            assert(marked(before, a));
                            assert(marked(before, b));
                        }
                    }
                    explore(map, n, seen);
                    proof {
                        let fin = views(seen@);
                        assert forall|a: (usize, usize), b: (usize, usize)|
                            marked(fin, a) && height(m, a.0 as int, a.1 as int).unwrap() >= h + 1
                                && #[trigger] uphill(m, a, b) implies marked(fin, b) by {
                            if height(m, a.0 as int, a.1 as int).unwrap() >= h + 2 {
                            } else if a == n {
                            } else {
                                // a place at the height of `n` is not reached by climbing from `n`
                                if !marked(mid, a) {
                                    assert(climbs_to(m, n, a));
                                    lemma_climb_rises(m, n, a);
                                }
                                assert(marked(before, a));
                                assert(marked(before, b));
                                assert(marked(mid, b));
                            }
                        }
                        assert forall|q: (usize, usize)| marked(fin, q) implies marked(start, q)
                            || climbs_to(m, p, q) by {
                            if marked(mid, q) {
                                if q == n {
                                    lemma_single_step(m, p, n);
                                } else {
                                    assert(marked(before, q));
                                }
                            } else {
                                assert(climbs_to(m, n, q));
                                lemma_climb_prepend(m, p, n, q);
                            }
                        }
                    }
                }
            },
        }
        proof {
            let fin = views(seen@);
            assert forall|b: (usize, usize), k: int|
                0 <= k < d + 1 && #[trigger] toward(p, k, b) && uphill(m, p, b) implies marked(
                fin,
                b,
            ) by {
                if k < d {
                    assert(marked(before, b));
                }
            }
        }
        d += 1;
    }
    proof {
        assert forall|b: (usize, usize)| #[trigger] uphill(m, p, b) implies marked(views(seen@), b) by {
            let k = choose|k: int| 0 <= k < 4 && #[trigger] beside(p, k) == (b.0 as int, b.1 as int);
            assert(toward(p, k, b));
        }
    }
}

/// One step uphill is a climb.
pub proof fn lemma_single_step(map: Seq<Seq<u8>>, a: (usize, usize), b: (usize, usize))
    requires
        uphill(map, a, b),
    ensures
        climbs_to(map, a, b),
{
    let p = seq![a, b];
    assert(climb_step(map, p, 0));
    assert(is_climb(map, p) && p[0] == a && p.last() == b);
}

/// A step uphill before a climb makes a climb.
pub proof fn lemma_climb_prepend(map: Seq<Seq<u8>>, a: (usize, usize), b: (usize, usize), c: (
    usize,
    usize,
))
    requires
        uphill(map, a, b),
        climbs_to(map, b, c),
    ensures
        climbs_to(map, a, c),
{
    let p = choose|p: Seq<(usize, usize)>| #[trigger] is_climb(map, p) && p[0] == b && p.last() == c;
    let q = seq![a] + p;
    assert forall|i: int| 0 <= i < q.len() - 1 implies #[trigger] climb_step(map, q, i) by {
        if i > 0 {
            assert(climb_step(map, p, i - 1));
        }
    }
    assert(is_climb(map, q) && q[0] == a && q.last() == c);
}

/// Every place of a climb lies higher than its first, by its place in the
/// climb.
pub proof fn lemma_climb_height(map: Seq<Seq<u8>>, p: Seq<(usize, usize)>, i: int)
    requires
        is_climb(map, p),
        0 <= i < p.len(),
    ensures
        height(map, p[i].0 as int, p[i].1 as int) is Some,
        height(map, p[0].0 as int, p[0].1 as int) is Some,
        height(map, p[i].0 as int, p[i].1 as int).unwrap() == height(
            map,
            p[0].0 as int,
            p[0].1 as int,
        ).unwrap() + i,
    decreases i,
{
    assert(climb_step(map, p, 0));
    if i > 0 {
        lemma_climb_height(map, p, i - 1);
        assert(climb_step(map, p, i - 1));
    }
}

/// A climb ends higher than it begins.
pub proof fn lemma_climb_rises(map: Seq<Seq<u8>>, a: (usize, usize), b: (usize, usize))
    requires
        climbs_to(map, a, b),
    ensures
        height(map, a.0 as int, a.1 as int) is Some,
        height(map, b.0 as int, b.1 as int) is Some,
        height(map, b.0 as int, b.1 as int).unwrap() > height(map, a.0 as int, a.1 as int).unwrap(),
{
    let p = choose|p: Seq<(usize, usize)>| #[trigger] is_climb(map, p) && p[0] == a && p.last() == b;
    lemma_climb_height(map, p, p.len() - 1);
}

/// Where the marks are closed above the height of `a` and hold the uphill
/// neighbours of `a`, they hold every place that a climb from `a` leads to.
pub proof fn lemma_closed_holds(map: Seq<Seq<u8>>, seen: Seq<Seq<bool>>, p: Seq<(usize, usize)>, i: int)
    requires
        is_climb(map, p),
        closed_above(map, seen, height(map, p[0].0 as int, p[0].1 as int).unwrap() + 1),
        forall|b: (usize, usize)| #[trigger] uphill(map, p[0], b) ==> marked(seen, b),
        1 <= i < p.len(),
    ensures
        marked(seen, p[i]),
    decreases i,
{
    if i == 1 {
        assert(climb_step(map, p, 0));
    } else {
        lemma_closed_holds(map, seen, p, i - 1);
        lemma_climb_height(map, p, i - 1);
        assert(climb_step(map, p, i - 1));
    }
}

/// The place `(r, c)` lies at height 9 and a climb from `s` leads to it.
pub open spec fn is_summit_of(map: Seq<Seq<u8>>, s: (usize, usize), r: int, c: int) -> bool {
    height(map, r, c) == Some(9u8) && climbs_to(map, s, (r as usize, c as usize))
}

/// How many summits of `s` lie in row `r` before column `bound`.
pub open spec fn summits_in_row(map: Seq<Seq<u8>>, s: (usize, usize), r: int, bound: int) -> nat
    decreases bound,
{
    if bound <= 0 {
        0
    } else {
        summits_in_row(map, s, r, bound - 1) + if is_summit_of(map, s, r, bound - 1) {
            1nat
        } else {
            0nat
        }
    }
}

/// How many summits of `s` lie in the rows before `bound`.
pub open spec fn summits(map: Seq<Seq<u8>>, s: (usize, usize), bound: int) -> nat
    decreases bound,
{
    if bound <= 0 {
        0
    } else {
        summits(map, s, bound - 1) + summits_in_row(map, s, bound - 1, map[bound - 1].len() as int)
    }
}

pub proof fn lemma_summits_row_bound(map: Seq<Seq<u8>>, s: (usize, usize), r: int, bound: int)
    requires
        0 <= bound,
    ensures
        summits_in_row(map, s, r, bound) <= bound,
    decreases bound,
{
    if bound > 0 {
        lemma_summits_row_bound(map, s, r, bound - 1);
    }
}

pub proof fn lemma_summits_bound(map: Seq<Seq<u8>>, s: (usize, usize), bound: int)
    requires
        0 <= bound <= map.len(),
        forall|r: int| 0 <= r < map.len() ==> (#[trigger] map[r]).len() <= usize::MAX,
    ensures
        summits(map, s, bound) <= bound * usize::MAX,
    decreases bound,
{
    if bound > 0 {
        lemma_summits_bound(map, s, bound - 1);
        lemma_summits_row_bound(map, s, bound - 1, map[bound - 1].len() as int);
        assert(bound * usize::MAX == (bound - 1) * usize::MAX + usize::MAX) by (nonlinear_arith);
    }
}

/// The score of a trailhead: the number of places at height 9 that a
/// climb from the trailhead leads to.
pub fn calculate_score(map: &Vec<Vec<u8>>, start_x: usize, start_y: usize) -> (score: u128)
    ensures
        score == summits(views(map@), (start_x, start_y), map.len() as int),
{
    let ghost m = views(map@);
    let s = (start_x, start_y);
    let mut seen: Vec<Vec<bool>> = Vec::new();
    let mut r: usize = 0;
    while r < map.len()
        invariant
            r <= map.len(),
            m == views(map@),
            seen.len() == r,
            forall|k: int| 0 <= k < r ==> (#[trigger] seen@[k])@.len() == m[k].len(),
            forall|k: int, c: int| 0 <= k < r && 0 <= c < m[k].len() ==> !(#[trigger] seen@[k]@[c]),
        decreases map.len() - r,
    {
        let mut row: Vec<bool> = Vec::new();
        let mut c: usize = 0;
        assert(m[r as int] == map@[r as int]@);
        while c < map[r].len()
            invariant
                c <= map[r as int].len(),
                r < map.len(),
                row.len() == c,
                forall|k: int| 0 <= k < c ==> !row@[k],
            decreases map[r as int].len() - c,
        {
            row.push(false);
            c += 1;
        }
        seen.push(row);
        r += 1;
    }
    proof {
        let sv = views(seen@);
        assert(same_shape(m, sv));
        assert forall|q: (usize, usize)| !marked(sv, q) by {
            if q.0 < sv.len() && q.1 < sv[q.0 as int].len() {
                assert(!seen@[q.0 as int]@[q.1 as int]);
            }
        }
    }
    if height_at(map, start_x, start_y).is_none() {
        proof {
            assert forall|t: (usize, usize)| !climbs_to(m, s, t) by {
                if climbs_to(m, s, t) {
                    lemma_climb_rises(m, s, t);
                }
            }
            lemma_no_summits(m, s, map.len() as int);
        }
        return 0;
    }
    explore(map, s, &mut seen);
    let ghost sv = views(seen@);
    proof {
        assert forall|t: (usize, usize)| marked(sv, t) <==> climbs_to(m, s, t) by {
            if climbs_to(m, s, t) {
                let p = choose|p: Seq<(usize, usize)>| #[trigger]
                    is_climb(m, p) && p[0] == s && p.last() == t;
                lemma_closed_holds(m, sv, p, p.len() - 1);
            }
        }
    }
    let mut score: u128 = 0;
    let mut row: usize = 0;
    while row < map.len()
        invariant
            row <= map.len(),
            m == views(map@),
            sv == views(seen@),
            same_shape(m, sv),
            forall|t: (usize, usize)| marked(sv, t) <==> climbs_to(m, s, t),
            score == summits(m, s, row as int),
        decreases map.len() - row,
    {
        let line = &map[row];
        let marks = &seen[row];
        assert(m[row as int] == line@);
        assert(sv[row as int] == marks@);
        assert(sv[row as int].len() == m[row as int].len());
        let mut in_row: u128 = 0;
        let mut col: usize = 0;
        while col < line.len()
            invariant
                col <= line.len(),
                row < map.len(),
                m == views(map@),
                sv == views(seen@),
                m[row as int] == line@,
                sv[row as int] == marks@,
                marks.len() == line.len(),
                sv.len() == m.len(),
                m.len() == map.len(),
                forall|t: (usize, usize)| marked(sv, t) <==> climbs_to(m, s, t),
                in_row == summits_in_row(m, s, row as int, col as int),
                in_row <= col,
            decreases line.len() - col,
        {
            proof {
                assert(row < sv.len());
                assert(marked(sv, (row, col)) == marks@[col as int]);
                assert(marked(sv, (row, col)) <==> climbs_to(m, s, (row, col)));
            }
            if line[col] == 9 && marks[col] {
                in_row += 1;
            }
            col += 1;
        }
        proof {
            assert forall|r: int| 0 <= r < m.len() implies (#[trigger] m[r]).len() <= usize::MAX by {
                assert(m[r] == map@[r]@);
                assert(m[r].len() == map@[r].len());
            }
            lemma_summits_bound(m, s, row as int);
            assert(row * usize::MAX <= 0xffff_ffff_ffff_ffff * 0xffff_ffff_ffff_ffff) by (nonlinear_arith)
                requires
                    row <= 0xffff_ffff_ffff_ffff,
                    usize::MAX <= 0xffff_ffff_ffff_ffff,
            ;
        }
        score += in_row;
        row += 1;
    }
    score
}

/// Where no climb begins, there are no summits.
pub proof fn lemma_no_summits(map: Seq<Seq<u8>>, s: (usize, usize), bound: int)
    requires
        forall|t: (usize, usize)| !climbs_to(map, s, t),
    ensures
        summits(map, s, bound) == 0,
    decreases bound,
{
    if bound > 0 {
        lemma_no_summits(map, s, bound - 1);
        lemma_no_summits_row(map, s, bound - 1, map[bound - 1].len() as int);
    }
}

pub proof fn lemma_no_summits_row(map: Seq<Seq<u8>>, s: (usize, usize), r: int, bound: int)
    requires
        forall|t: (usize, usize)| !climbs_to(map, s, t),
    ensures
        summits_in_row(map, s, r, bound) == 0,
    decreases bound,
{
    if bound > 0 {
        lemma_no_summits_row(map, s, r, bound - 1);
    }
}


/// The neighbour of `p` in the direction `d`, if its coordinates can be
/// held.
pub open spec fn neighbor(p: (usize, usize), d: int) -> Option<(usize, usize)> {
    if 0 <= beside(p, d).0 <= usize::MAX && 0 <= beside(p, d).1 <= usize::MAX {
        Some((beside(p, d).0 as usize, beside(p, d).1 as usize))
    } else {
        None
    }
}

/// How many trails begin at `p`, if `p` lies at height `h`: one at height
/// 9, none above it, and below it as many as begin at the neighbours of `p`
/// that lie one higher.
pub open spec fn trails_at(map: Seq<Seq<u8>>, p: Option<(usize, usize)>, h: int) -> nat
    decreases 9 - h,
{
    match p {
        None => 0,
        Some(q) => if height(map, q.0 as int, q.1 as int) != Some(h as u8) || h < 0 || h > 9 {
            0
        } else if h == 9 {
            1
        } else {
            trails_at(map, neighbor(q, 0), h + 1) + trails_at(map, neighbor(q, 1), h + 1) + trails_at(
                map,
                neighbor(q, 2),
                h + 1,
            ) + trails_at(map, neighbor(q, 3), h + 1)
        },
    }
}

/// The rating of a place: the number of trails that begin there.
pub open spec fn rating(map: Seq<Seq<u8>>, p: (usize, usize)) -> nat {
    match height(map, p.0 as int, p.1 as int) {
        Some(h) => trails_at(map, Some(p), h as int),
        None => 0,
    }
}

/// Four to the power of `n`.
pub open spec fn pow4(n: nat) -> nat
    decreases n,
{
    if n == 0 {
        1
    } else {
        4 * pow4((n - 1) as nat)
    }
}

pub proof fn lemma_trails_bound(map: Seq<Seq<u8>>, p: Option<(usize, usize)>, h: int)
    requires
        0 <= h <= 9,
    ensures
        trails_at(map, p, h) <= pow4((9 - h) as nat),
        pow4((9 - h) as nat) <= 262144,
    decreases 9 - h,
{
    reveal_with_fuel(pow4, 10);
    if h < 9 {
        match p {
            None => {},
            Some(q) => {
                lemma_trails_bound(map, neighbor(q, 0), h + 1);
                lemma_trails_bound(map, neighbor(q, 1), h + 1);
                lemma_trails_bound(map, neighbor(q, 2), h + 1);
                lemma_trails_bound(map, neighbor(q, 3), h + 1);
            },
        }
    }
}

/// The notes hold the ratings of the places for which they hold anything.
pub open spec fn notes_ok(map: Seq<Seq<u8>>, memo: Seq<Seq<Option<u128>>>) -> bool {
    &&& memo.len() == map.len()
    &&& forall|r: int| 0 <= r < map.len() ==> (#[trigger] memo[r]).len() == map[r].len()
    &&& forall|r: int, c: int|
        0 <= r < map.len() && 0 <= c < map[r].len() ==> match #[trigger] memo[r][c] {
            Some(v) => v == rating(map, (r as usize, c as usize)),
            None => true,
        }
}

/// Writes one note.
fn note(memo: &mut Vec<Vec<Option<u128>>>, p: (usize, usize), v: u128)
    requires
        p.0 < old(memo).len(),
        p.1 < old(memo)[p.0 as int].len(),
    ensures
        views(final(memo)@).len() == views(old(memo)@).len(),
        forall|r: int|
            0 <= r < views(old(memo)@).len() ==> (#[trigger] views(final(memo)@)[r]).len() == views(
                old(memo)@,
            )[r].len(),
        forall|r: int, c: int|
            0 <= r < views(old(memo)@).len() && 0 <= c < views(old(memo)@)[r].len() ==> #[trigger] views(
                final(memo)@,
            )[r][c] == (if r == p.0 && c == p.1 {
                Some(v)
            } else {
                views(old(memo)@)[r][c]
            }),
{
    let mut row: Vec<Option<u128>> = Vec::new();
    memo.set_and_swap(p.0, &mut row);
    row.set(p.1, Some(v));
    memo.set(p.0, row);
}

/// The neighbour of `p` in the direction `d`.
fn neighbor_of(p: (usize, usize), d: u8) -> (r: Option<(usize, usize)>)
    requires
        d < 4,
    ensures
        r == neighbor(p, d as int),
{
    if d == 0 {
        if p.1 == usize::MAX {
            None
        } else {
            Some((p.0, p.1 + 1))
        }
    } else if d == 1 {
        if p.0 == usize::MAX {
            None
        } else {
            Some((p.0 + 1, p.1))
        }
    } else if d == 2 {
        if p.1 == 0 {
            None
        } else {
            Some((p.0, p.1 - 1))
        }
    } else {
        if p.0 == 0 {
            None
        } else {
            Some((p.0 - 1, p.1))
        }
    }
}

/// Counts the trails that begin at `(x, y)`, and notes the count.
pub fn count_paths(map: &Vec<Vec<u8>>, x: usize, y: usize, memo: &mut Vec<Vec<Option<u128>>>) -> (n: u128)
    requires
        notes_ok(views(map@), views(old(memo)@)),
    ensures
        notes_ok(views(map@), views(final(memo)@)),
        n == rating(views(map@), (x, y)),
    decreases
            (match height(views(map@), x as int, y as int) {
                Some(h) => 255 - h,
                None => 0,
            }),
{
    let ghost m = views(map@);
    let h = match height_at(map, x, y) {
        Some(h) => h,
        None => {
            return 0;
        },
    };
    proof {
        assert(views(memo@)[x as int].len() == m[x as int].len());
        assert(views(memo@)[x as int] == memo@[x as int]@);
    }
    match memo[x][y] {
        Some(v) => {
            assert(views(memo@)[x as int][y as int] == Some(v));
            return v;
        },
        None => {},
    }
    if h == 9 {
        return 1;
    }
    if h > 9 {
        return 0;
    }
    let mut path_count: u128 = 0;
    let mut d: u8 = 0;
    while d < 4
        invariant
            d <= 4,
            m == views(map@),
            h < 9,
            height(m, x as int, y as int) == Some(h),
            notes_ok(m, views(memo@)),
            path_count == (if d == 0 {
                0nat
            } else if d == 1 {
                trails_at(m, neighbor((x, y), 0), h + 1)
            } else if d == 2 {
                trails_at(m, neighbor((x, y), 0), h + 1) + trails_at(m, neighbor((x, y), 1), h + 1)
            } else if d == 3 {
                trails_at(m, neighbor((x, y), 0), h + 1) + trails_at(m, neighbor((x, y), 1), h + 1)
                    + trails_at(m, neighbor((x, y), 2), h + 1)
            } else {
                trails_at(m, neighbor((x, y), 0), h + 1) + trails_at(m, neighbor((x, y), 1), h + 1)
                    + trails_at(m, neighbor((x, y), 2), h + 1) + trails_at(
                    m,
                    neighbor((x, y), 3),
                    h + 1,
                )
            }),
            path_count <= 262144 * d,
        decreases 4 - d,
    {
        proof {
            lemma_trails_bound(m, neighbor((x, y), d as int), h + 1);
        }
        match neighbor_of((x, y), d) {
            None => {},
            Some(n) => {
                match height_at(map, n.0, n.1) {
                    Some(nh) => {
                        if nh == h + 1 {
                            let c = count_paths(map, n.0, n.1, memo);
                            path_count += c;
                        }
                    },
                    None => {},
                }
            },
        }
        d += 1;
    }
    proof {
        assert(views(memo@)[x as int].len() == m[x as int].len());
        assert(views(memo@)[x as int] == memo@[x as int]@);
    }
    note(memo, (x, y), path_count);
    path_count
}

/// The rating of a trailhead: the number of trails that begin there.
pub fn calculate_rating(map: &Vec<Vec<u8>>, start_x: usize, start_y: usize) -> (n: u128)
    ensures
        n == rating(views(map@), (start_x, start_y)),
{
    let ghost m = views(map@);
    let mut memo: Vec<Vec<Option<u128>>> = Vec::new();
    let mut r: usize = 0;
    while r < map.len()
        invariant
            r <= map.len(),
            m == views(map@),
            memo.len() == r,
            forall|k: int| 0 <= k < r ==> (#[trigger] memo@[k])@.len() == m[k].len(),
            forall|k: int, c: int| 0 <= k < r && 0 <= c < m[k].len() ==> (#[trigger] memo@[k]@[c]) is None,
        decreases map.len() - r,
    {
        let mut row: Vec<Option<u128>> = Vec::new();
        let mut c: usize = 0;
        assert(m[r as int] == map@[r as int]@);
        while c < map[r].len()
            invariant
                c <= map[r as int].len(),
                r < map.len(),
                row.len() == c,
                forall|k: int| 0 <= k < c ==> row@[k] is None,
            decreases map[r as int].len() - c,
        {
            row.push(None);
            c += 1;
        }
        memo.push(row);
        r += 1;
    }
    proof {
        let mv = views(memo@);
        assert forall|r: int, c: int| 0 <= r < m.len() && 0 <= c < m[r].len() implies match #[trigger] mv[r][c] {
            Some(v) => v == rating(m, (r as usize, c as usize)),
            None => true,
        } by {
            assert(memo@[r]@[c] is None);
        }
    }
    count_paths(map, start_x, start_y, &mut memo)
}

/// What a place adds to the total: its score or its rating if it is a
/// trailhead, a place at height 0.
pub open spec fn worth(map: Seq<Seq<u8>>, r: int, c: int, rated: bool) -> nat {
    if height(map, r, c) == Some(0u8) {
        if rated {
            rating(map, (r as usize, c as usize))
        } else {
            summits(map, (r as usize, c as usize), map.len() as int)
        }
    } else {
        0
    }
}

/// The total of row `r` before column `bound`.
pub open spec fn row_total(map: Seq<Seq<u8>>, r: int, bound: int, rated: bool) -> nat
    decreases bound,
{
    if bound <= 0 {
        0
    } else {
        row_total(map, r, bound - 1, rated) + worth(map, r, bound - 1, rated)
    }
}

/// The total of the rows before `bound`.
pub open spec fn rows_total(map: Seq<Seq<u8>>, bound: int, rated: bool) -> nat
    decreases bound,
{
    if bound <= 0 {
        0
    } else {
        rows_total(map, bound - 1, rated) + row_total(map, bound - 1, map[bound - 1].len() as int, rated)
    }
}

pub proof fn lemma_row_total_grows(map: Seq<Seq<u8>>, r: int, a: int, b: int, rated: bool)
    requires
        a <= b,
    ensures
        row_total(map, r, a, rated) <= row_total(map, r, b, rated),
    decreases b - a,
{
    if a < b {
        lemma_row_total_grows(map, r, a, b - 1, rated);
    }
}

pub proof fn lemma_rows_total_grows(map: Seq<Seq<u8>>, a: int, b: int, rated: bool)
    requires
        a <= b,
    ensures
        rows_total(map, a, rated) <= rows_total(map, b, rated),
    decreases b - a,
{
    if a < b {
        lemma_rows_total_grows(map, a, b - 1, rated);
    }
}

/// Adds up the scores of all trailheads or, with `rated`, their ratings.
/// There is no total where it exceeds 128 bits.
pub fn sum_trailheads(map: &Vec<Vec<u8>>, rated: bool) -> (r: Option<u128>)
    ensures
        match r {
            Some(t) => t == rows_total(views(map@), map.len() as int, rated),
            None => rows_total(views(map@), map.len() as int, rated) > u128::MAX,
        },
{
    let ghost m = views(map@);
    let mut total: u128 = 0;
    let mut x: usize = 0;
    while x < map.len()
        invariant
            x <= map.len(),
            m == views(map@),
            total == rows_total(m, x as int, rated),
        decreases map.len() - x,
    {
        let line = &map[x];
        assert(m[x as int] == line@);
        let mut y: usize = 0;
        let mut in_row: u128 = 0;
        while y < line.len()
            invariant
                y <= line.len(),
                x < map.len(),
                m == views(map@),
                m[x as int] == line@,
                in_row == row_total(m, x as int, y as int, rated),
            decreases line.len() - y,
        {
            if line[y] == 0 {
                let v = if rated {
                    calculate_rating(map, x, y)
                } else {
                    calculate_score(map, x, y)
                };
                match in_row.checked_add(v) {
                    Some(t) => {
                        in_row = t;
                    },
                    None => {
                        proof {
                            lemma_row_total_grows(m, x as int, y + 1, line.len() as int, rated);
                            lemma_rows_total_grows(m, x + 1, map.len() as int, rated);
                        }
                        return None;
                    },
                }
            }
            y += 1;
        }
        match total.checked_add(in_row) {
            Some(t) => {
                total = t;
            },
            None => {
                proof {
                    lemma_rows_total_grows(m, x + 1, map.len() as int, rated);
                }
                return None;
            },
        }
        x += 1;
    }
    Some(total)
}

/// Adds up the scores of all trailheads: for each, the number of peaks
/// that a climb from it reaches.
pub fn sum_trailhead_scores(map: &Vec<Vec<u8>>) -> (r: Option<u128>)
    ensures
        match r {
            Some(t) => t == rows_total(views(map@), map.len() as int, false),
            None => rows_total(views(map@), map.len() as int, false) > u128::MAX,
        },
{
    sum_trailheads(map, false)
}

/// Adds up the ratings of all trailheads: for each, the number of climbs
/// from it to a peak.
pub fn sum_trailhead_ratings(map: &Vec<Vec<u8>>) -> (r: Option<u128>)
    ensures
        match r {
            Some(t) => t == rows_total(views(map@), map.len() as int, true),
            None => rows_total(views(map@), map.len() as int, true) > u128::MAX,
        },
{
    sum_trailheads(map, true)
}

} // verus!
