//! A guard who patrols a map: she walks straight on, turns right before an
//! obstacle, and either leaves the map or walks in a loop for ever.

use vstd::prelude::*;
use crate::maze::heading::Direction;
use crate::maze::route::Pose;
use crate::maze::table::StateTable;
use crate::text::{chars_of, lines_of, split_lines, views};

verus! {

/// An obstacle stands at column `x` of row `y`.
pub open spec fn blocked(map: Seq<Seq<char>>, x: int, y: int) -> bool {
    0 <= y < map.len() && 0 <= x < map[y].len() && map[y][x] == '#'
}

/// The width of the map: the length of its first row.
pub open spec fn width_of(map: Seq<Seq<char>>) -> int {
    if map.len() > 0 {
        map[0].len() as int
    } else {
        0
    }
}

/// The pose lies on the map.
pub open spec fn on_map(map: Seq<Seq<char>>, s: Pose) -> bool {
    s.y < map.len() && s.x < width_of(map)
}

/// The pose after one step of the guard: she turns right before an
/// obstacle, else she steps forward; there is none once she has left the
/// map.
pub open spec fn stride(map: Seq<Seq<char>>, s: Pose) -> Option<Pose> {
    let nx = s.x + s.dir.dx();
    let ny = s.y + s.dir.dy();
    if 0 <= ny < map.len() && 0 <= nx < width_of(map) {
        if blocked(map, nx, ny) {
            Some(Pose { x: s.x, y: s.y, dir: s.dir.right() })
        } else {
            Some(Pose { x: nx as usize, y: ny as usize, dir: s.dir })
        }
    } else {
        None
    }
}

/// The pose of the guard after `k` steps.
pub open spec fn walked(map: Seq<Seq<char>>, s: Pose, k: nat) -> Option<Pose>
    decreases k,
{
    if k == 0 {
        Some(s)
    } else {
        match walked(map, s, (k - 1) as nat) {
            Some(t) => stride(map, t),
            None => None,
        }
    }
}

/// The guard leaves the map.
pub open spec fn leaves(map: Seq<Seq<char>>, s: Pose) -> bool {
    exists|k: nat| #[trigger] walked(map, s, k) is None
}

/// The guard stands at column `x` of row `y` at some time.
pub open spec fn passes(map: Seq<Seq<char>>, s: Pose, x: int, y: int) -> bool {
    exists|k: nat|
        (#[trigger] walked(map, s, k)) is Some && walked(map, s, k).unwrap().x == x && walked(
            map,
            s,
            k,
        ).unwrap().y == y
}

/// Once the guard has left she stays away.
pub proof fn lemma_walk_gone(map: Seq<Seq<char>>, s: Pose, a: nat, b: nat)
    requires
        a <= b,
        walked(map, s, a) is None,
    ensures
        walked(map, s, b) is None,
    decreases b - a,
{
    if a < b {
        lemma_walk_gone(map, s, a, (b - 1) as nat);
    }
}

/// From equal poses the guard walks on equally.
pub proof fn lemma_walk_shift(map: Seq<Seq<char>>, s: Pose, i: nat, j: nat, t: nat)
    requires
        walked(map, s, i) == walked(map, s, j),
    ensures
        walked(map, s, i + t) == walked(map, s, j + t),
    decreases t,
{
    if t > 0 {
        lemma_walk_shift(map, s, i, j, (t - 1) as nat);
    }
}

/// A guard who comes into the same pose twice never leaves, and every pose
/// she comes into she has come into before the second time.
pub proof fn lemma_walk_loops(map: Seq<Seq<char>>, s: Pose, i: nat, j: nat, k: nat)
    requires
        i < j,
        walked(map, s, i) is Some,
        walked(map, s, i) == walked(map, s, j),
    ensures
        walked(map, s, k) is Some,
        exists|h: nat| h < j && #[trigger] walked(map, s, h) == walked(map, s, k),
    decreases k,
{
    if k < j {
        if walked(map, s, k) is None {
            lemma_walk_gone(map, s, k, j);
        }
        assert(walked(map, s, k) == walked(map, s, k));
    } else {
        let back = (k - (j - i)) as nat;
        lemma_walk_loops(map, s, i, j, back);
        lemma_walk_shift(map, s, i, j, (k - j) as nat);
        assert(i + (k - j) as nat == back);
        assert(j + (k - j) as nat == k);
        let h = choose|h: nat| h < j && #[trigger] walked(map, s, h) == walked(map, s, back);
        assert(walked(map, s, h) == walked(map, s, k));
    }
}

/// The guard stays on the map as long as she walks.
pub proof fn lemma_walk_on_map(map: Seq<Seq<char>>, s: Pose, k: nat)
    requires
        on_map(map, s),
        walked(map, s, k) is Some,
    ensures
        on_map(map, walked(map, s, k).unwrap()),
    decreases k,
{
    if k > 0 {
        if walked(map, s, (k - 1) as nat) is Some {
            lemma_walk_on_map(map, s, (k - 1) as nat);
        }
    }
}

/// Tells a marked slot from an unmarked one.
pub open spec fn is_set() -> spec_fn(bool) -> bool {
    |b: bool| b
}

/// One step of the guard.
fn step(map: &Vec<Vec<char>>, width: usize, s: Pose) -> (r: Option<Pose>)
    requires
        width == width_of(views(map@)),
        on_map(views(map@), s),
    ensures
        r == stride(views(map@), s),
{
    assert(map.len() == views(map@).len());
    let target: Option<(usize, usize)> = match s.dir {
        Direction::North => if s.y == 0 {
            None
        } else {
            Some((s.x, s.y - 1))
        },
        Direction::East => if s.x + 1 >= width {
            None
        } else {
            Some((s.x + 1, s.y))
        },
        Direction::South => if s.y + 1 >= map.len() {
            None
        } else {
            Some((s.x, s.y + 1))
        },
        Direction::West => if s.x == 0 {
            None
        } else {
            Some((s.x - 1, s.y))
        },
    };
    match target {
        None => None,
        Some((nx, ny)) => {
            let row = &map[ny];
            assert(views(map@)[ny as int] == row@);
            if nx < row.len() && row[nx] == '#' {
                Some(Pose { x: s.x, y: s.y, dir: s.dir.turn_right() })
            } else {
                Some(Pose { x: nx, y: ny, dir: s.dir })
            }
        },
    }
}

/// Walks the guard from `start` until she leaves the map or comes into a
/// pose for the second time. Returns whether she walks in a loop, and the
/// poses she came into.
fn patrol(map: &Vec<Vec<char>>, start: Pose) -> (r: Option<(bool, StateTable<bool>)>)
    requires
        on_map(views(map@), start),
    ensures
        match r {
            Some((looping, seen)) => {
                &&& looping == !leaves(views(map@), start)
                &&& width_of(views(map@)) * map.len() <= usize::MAX
                &&& seen.wf()
                &&& seen.width() == width_of(views(map@))
                &&& seen.height() == map.len()
                &&& forall|p: Pose|
                    seen.covers(p) ==> (#[trigger] seen.get(p) <==> exists|k: nat| #[trigger]
                        walked(views(map@), start, k) == Some(p))
            },
            None => width_of(views(map@)) * map.len() > usize::MAX,
        },
{
    let ghost m = views(map@);
    let width = map[0].len();
    assert(m[0] == map@[0]@);
    let cells = match width.checked_mul(map.len()) {
        Some(n) => n,
        None => {
            return None;
        },
    };
    let mut seen: StateTable<bool> = StateTable::new(width, map.len(), cells, false);
    let mut cur = start;
    let ghost mut k: nat = 0;
    proof {
        assert(!is_set()(false));
    }
    loop
        invariant
            m == views(map@),
            width == width_of(m),
            map.len() > 0,
            seen.wf(),
            seen.width() == width,
            seen.height() == map.len(),
            on_map(m, start),
            on_map(m, cur),
            walked(m, start, k) == Some(cur),
            forall|p: Pose|
                seen.covers(p) ==> (#[trigger] seen.get(p) <==> exists|h: nat|
                    h < k && #[trigger] walked(m, start, h) == Some(p)),
        decreases 4 * width * map.len() - seen.tally(is_set()),
    {
        proof {
            seen.lemma_tally_le(is_set());
        }
        if seen.read(cur) {
            proof {
                let i = choose|h: nat| h < k && #[trigger] walked(m, start, h) == Some(cur);
                assert forall|n: nat| !(#[trigger] walked(m, start, n) is None) by {
                    lemma_walk_loops(m, start, i, k, n);
                }
                assert forall|p: Pose| seen.covers(p) implies (#[trigger] seen.get(p) <==> exists|n: nat| #[trigger]
                    walked(m, start, n) == Some(p)) by {
                    if exists|n: nat| #[trigger] walked(m, start, n) == Some(p) {
                        let n = choose|n: nat| #[trigger] walked(m, start, n) == Some(p);
                        lemma_walk_loops(m, start, i, k, n);
                        let h = choose|h: nat| h < k && #[trigger] walked(m, start, h) == walked(m, start, n);
                        assert(walked(m, start, h) == Some(p));
                    }
                    if seen.get(p) {
                        let h = choose|h: nat| h < k && #[trigger] walked(m, start, h) == Some(p);
                        assert(walked(m, start, h) == Some(p));
                    }
                }
            }
            return Some((true, seen));
        }
        let ghost before = seen;
        seen.write(cur, true);
        proof {
            assert(is_set()(true));
            assert(!is_set()(false));
            assert(seen.tally(is_set()) == before.tally(is_set()) + 1);
            seen.lemma_tally_le(is_set());
            assert forall|p: Pose| seen.covers(p) implies (#[trigger] seen.get(p) <==> exists|h: nat|
                h < k + 1 && #[trigger] walked(m, start, h) == Some(p)) by {
                if p == cur {
                    assert(walked(m, start, k) == Some(p));
                } else {
                    if before.get(p) {
                        let h = choose|h: nat| h < k && #[trigger] walked(m, start, h) == Some(p);
                        assert(walked(m, start, h) == Some(p));
                    }
                    if exists|h: nat| h < k + 1 && #[trigger] walked(m, start, h) == Some(p) {
                        let h = choose|h: nat| h < k + 1 && #[trigger] walked(m, start, h) == Some(p);
                        assert(h < k);
                    }
                }
            }
        }
        match step(map, width, cur) {
            None => {
                proof {
                    assert(walked(m, start, k + 1) is None);
                    assert forall|p: Pose| seen.covers(p) implies (#[trigger] seen.get(p) <==> exists|n: nat| #[trigger]
                        walked(m, start, n) == Some(p)) by {
                        if exists|n: nat| #[trigger] walked(m, start, n) == Some(p) {
                            let n = choose|n: nat| #[trigger] walked(m, start, n) == Some(p);
                            if n >= k + 1 {
                                lemma_walk_gone(m, start, k + 1, n);
                            }
                        }
                        if seen.get(p) {
                            let h = choose|h: nat| h < k + 1 && #[trigger] walked(m, start, h) == Some(p);
                            assert(walked(m, start, h) == Some(p));
                        }
                    }
                }
                return Some((false, seen));
            },
            Some(next) => {
                proof {
                    assert(walked(m, start, k + 1) == Some(next));
                    lemma_walk_on_map(m, start, k + 1);
                    k = k + 1;
                }
                cur = next;
            },
        }
    }
}

/// Whether the guard who starts in `start` walks in a loop. There is no
/// answer for a map with more cells than the machine can count.
pub fn check_cycle_in_map(map: &Vec<Vec<char>>, start: Pose) -> (r: Option<bool>)
    requires
        on_map(views(map@), start),
    ensures
        match r {
            Some(has_cycle) => has_cycle == !leaves(views(map@), start),
            None => width_of(views(map@)) * map.len() > usize::MAX,
        },
{
    match patrol(map, start) {
        Some((looping, _)) => Some(looping),
        None => None,
    }
}

/// The cells that the guard stands on at some time, row by row.
pub fn travel_map(map: &Vec<Vec<char>>, start: Pose) -> (r: Option<Vec<Vec<bool>>>)
    requires
        on_map(views(map@), start),
    ensures
        match r {
            Some(visited) => {
                &&& visited.len() == map.len()
                &&& width_of(views(map@)) * map.len() <= usize::MAX
                &&& forall|y: int|
                    0 <= y < map.len() ==> (#[trigger] views(visited@)[y]).len() == width_of(views(map@))
                &&& forall|x: int, y: int|
                    0 <= y < map.len() && 0 <= x < width_of(views(map@)) ==> (#[trigger] views(
                        visited@,
                    )[y][x] <==> passes(views(map@), start, x, y))
            },
            None => width_of(views(map@)) * map.len() > usize::MAX,
        },
{
    let ghost m = views(map@);
    let (_, seen) = match patrol(map, start) {
        Some(r) => r,
        None => {
            return None;
        },
    };
    let width = map[0].len();
    assert(m[0] == map@[0]@);
    let mut visited: Vec<Vec<bool>> = Vec::new();
    let mut y: usize = 0;
    while y < map.len()
        invariant
            y <= map.len(),
            m == views(map@),
            width == width_of(m),
            seen.wf(),
            seen.width() == width,
            seen.height() == map.len(),
            forall|p: Pose|
                seen.covers(p) ==> (#[trigger] seen.get(p) <==> exists|k: nat| #[trigger]
                    walked(m, start, k) == Some(p)),
            visited.len() == y,
            forall|k: int| 0 <= k < y ==> (#[trigger] views(visited@)[k]).len() == width,
            forall|x2: int, y2: int|
                0 <= y2 < y && 0 <= x2 < width ==> (#[trigger] views(visited@)[y2][x2] <==> passes(
                    m,
                    start,
                    x2,
                    y2,
                )),
        decreases map.len() - y,
    {
        let mut row: Vec<bool> = Vec::new();
        let mut x: usize = 0;
        while x < width
            invariant
                x <= width,
                y < map.len(),
                m == views(map@),
                seen.wf(),
                seen.width() == width,
                seen.height() == map.len(),
                forall|p: Pose|
                    seen.covers(p) ==> (#[trigger] seen.get(p) <==> exists|k: nat| #[trigger]
                        walked(m, start, k) == Some(p)),
                row.len() == x,
                forall|x2: int| 0 <= x2 < x ==> (#[trigger] row@[x2] <==> passes(m, start, x2, y as int)),
            decreases width - x,
        {
            let n = seen.read(Pose { x, y, dir: Direction::North });
            let e = seen.read(Pose { x, y, dir: Direction::East });
            let s = seen.read(Pose { x, y, dir: Direction::South });
            let w = seen.read(Pose { x, y, dir: Direction::West });
            let any = n || e || s || w;
            proof {
                if any {
                    let d = if n {
                        Direction::North
                    } else if e {
                        Direction::East
                    } else if s {
                        Direction::South
                    } else {
                        Direction::West
                    };
                    let p = Pose { x, y, dir: d };
                    assert(seen.get(p));
                    let k = choose|k: nat| #[trigger] walked(m, start, k) == Some(p);
                    assert(walked(m, start, k) is Some);
                    assert(passes(m, start, x as int, y as int));
                }
                if passes(m, start, x as int, y as int) {
                    let k = choose|k: nat|
                        (#[trigger] walked(m, start, k)) is Some && walked(m, start, k).unwrap().x == x
                            && walked(m, start, k).unwrap().y == y;
                    let p = walked(m, start, k).unwrap();
                    assert(walked(m, start, k) == Some(p));
                    assert(seen.get(p));
                    match p.dir {
                        Direction::North => {},
                        Direction::East => {},
                        Direction::South => {},
                        Direction::West => {},
                    }
                }
            }
            row.push(any);
            x += 1;
        }
        proof {
            crate::text::lemma_views_push(visited@, row);
        }
        visited.push(row);
        y += 1;
    }
    Some(visited)
}

/// The heading that a character shows, if it shows the guard.
pub open spec fn guard_of(c: char) -> Option<Direction> {
    if c == '>' {
        Some(Direction::East)
    } else if c == '<' {
        Some(Direction::West)
    } else if c == 'v' {
        Some(Direction::South)
    } else if c == '^' {
        Some(Direction::North)
    } else {
        None
    }
}

/// The guard stands at column `x` of row `y`, among the columns of the
/// first row.
pub open spec fn guard_at(map: Seq<Seq<char>>, x: int, y: int) -> bool {
    0 <= y < map.len() && 0 <= x < width_of(map) && x < map[y].len() && guard_of(map[y][x]) is Some
}

/// `s` is where the guard starts: the last place in reading order that
/// shows her.
pub open spec fn is_start(map: Seq<Seq<char>>, s: Pose) -> bool {
    &&& guard_at(map, s.x as int, s.y as int)
    &&& guard_of(map[s.y as int][s.x as int]) == Some(s.dir)
    &&& forall|x: int, y: int|
        #[trigger] guard_at(map, x, y) ==> !crate::lattice::earlier(s.x as int, s.y as int, x, y)
}

/// Finds where the guard starts.
pub fn find_guard(map: &Vec<Vec<char>>) -> (r: Option<Pose>)
    ensures
        match r {
            Some(s) => is_start(views(map@), s) && on_map(views(map@), s),
            None => forall|x: int, y: int| !guard_at(views(map@), x, y),
        },
{
    let ghost m = views(map@);
    if map.len() == 0 {
        return None;
    }
    let width = map[0].len();
    assert(m[0] == map@[0]@);
    let mut found: Option<Pose> = None;
    let mut y: usize = 0;
    while y < map.len()
        invariant
            y <= map.len(),
            m == views(map@),
            map.len() > 0,
            width == width_of(m),
            match found {
                Some(s) => guard_at(m, s.x as int, s.y as int) && guard_of(m[s.y as int][s.x as int])
                    == Some(s.dir) && s.y < y && forall|x2: int, y2: int|
                    #[trigger] guard_at(m, x2, y2) && y2 < y ==> !crate::lattice::earlier(
                        s.x as int,
                        s.y as int,
                        x2,
                        y2,
                    ),
                None => forall|x2: int, y2: int| #[trigger] guard_at(m, x2, y2) ==> y2 >= y,
            },
        decreases map.len() - y,
    {
        let row = &map[y];
        assert(m[y as int] == row@);
        let mut x: usize = 0;
        while x < width && x < row.len()
            invariant
                x <= width,
                x <= row.len(),
                y < map.len(),
                m == views(map@),
                m[y as int] == row@,
                width == width_of(m),
                match found {
                    Some(s) => guard_at(m, s.x as int, s.y as int) && guard_of(
                        m[s.y as int][s.x as int],
                    ) == Some(s.dir) && crate::lattice::earlier(
                        s.x as int,
                        s.y as int,
                        x as int,
                        y as int,
                    ) && forall|x2: int, y2: int|
                        #[trigger] guard_at(m, x2, y2) && crate::lattice::earlier(
                            x2,
                            y2,
                            x as int,
                            y as int,
                        ) ==> !crate::lattice::earlier(s.x as int, s.y as int, x2, y2),
                    None => forall|x2: int, y2: int|
                        #[trigger] guard_at(m, x2, y2) ==> !crate::lattice::earlier(
                            x2,
                            y2,
                            x as int,
                            y as int,
                        ),
                },
            decreases width - x,
        {
            let c = row[x];
            let dir = if c == '>' {
                Some(Direction::East)
            } else if c == '<' {
                Some(Direction::West)
            } else if c == 'v' {
                Some(Direction::South)
            } else if c == '^' {
                Some(Direction::North)
            } else {
                None
            };
            match dir {
                Some(d) => {
                    found = Some(Pose { x, y, dir: d });
                    assert(guard_at(m, x as int, y as int));
                },
                None => {
                    assert(!guard_at(m, x as int, y as int));
                },
            }
            x += 1;
        }
        y += 1;
    }
    found
}

/// A visited cell lies beside the cell at column `x` of row `y`, in a row,
/// a column or a diagonal.
pub open spec fn near_visited(visited: Seq<Seq<bool>>, x: int, y: int) -> bool {
    exists|dx: int, dy: int|
        -1 <= dx <= 1 && -1 <= dy <= 1 && !(dx == 0 && dy == 0) && #[trigger] lit(
            visited,
            x + dx,
            y + dy,
        )
}

/// The cell at column `x` of row `y` is marked.
pub open spec fn lit(visited: Seq<Seq<bool>>, x: int, y: int) -> bool {
    0 <= y < visited.len() && 0 <= x < visited[y].len() && visited[y][x]
}

/// Whether a visited cell lies beside a cell.
fn is_near_visited(visited: &Vec<Vec<bool>>, x: usize, y: usize) -> (b: bool)
    ensures
        b == near_visited(views(visited@), x as int, y as int),
{
    let ghost v = views(visited@);
    let mut dy: i128 = -1;
    while dy <= 1
        invariant
            -1 <= dy <= 2,
            v == views(visited@),
            forall|dx2: int, dy2: int|
                -1 <= dx2 <= 1 && -1 <= dy2 < dy && !(dx2 == 0 && dy2 == 0) ==> !#[trigger] lit(
                    v,
                    x + dx2,
                    y + dy2,
                ),
        decreases 2 - dy,
    {
        let mut dx: i128 = -1;
        while dx <= 1
            invariant
                -1 <= dx <= 2,
                -1 <= dy <= 1,
                v == views(visited@),
                forall|dx2: int, dy2: int|
                    -1 <= dx2 <= 1 && -1 <= dy2 < dy && !(dx2 == 0 && dy2 == 0) ==> !#[trigger] lit(
                        v,
                        x + dx2,
                        y + dy2,
                    ),
                forall|dx2: int|
                    -1 <= dx2 < dx && !(dx2 == 0 && dy == 0) ==> !#[trigger] lit(v, x + dx2, y + dy),
            decreases 2 - dx,
        {
            if !(dx == 0 && dy == 0) {
                let cx = x as i128 + dx;
                let cy = y as i128 + dy;
                if cx >= 0 && cy >= 0 && cy < visited.len() as i128 {
                    let row = &visited[cy as usize];
                    assert(v[cy as int] == row@);
                    if cx < row.len() as i128 && row[cx as usize] {
                        assert(lit(v, x + dx, y + dy));
                        return true;
                    }
                }
            }
            dx += 1;
        }
        dy += 1;
    }
    false
}

/// The map with an obstacle at column `x` of row `y`.
pub open spec fn obstructed(map: Seq<Seq<char>>, x: int, y: int) -> Seq<Seq<char>> {
    if 0 <= y < map.len() && 0 <= x < map[y].len() {
        map.update(y, map[y].update(x, '#'))
    } else {
        map
    }
}

/// An obstacle at column `x` of row `y` makes the guard walk in a loop:
/// the cell is free, is not where the guard starts, lies beside a cell of
/// her walk, and with the obstacle she never leaves.
pub open spec fn traps(map: Seq<Seq<char>>, start: Pose, visited: Seq<Seq<bool>>, x: int, y: int) -> bool {
    &&& 0 <= y < map.len() && 0 <= x < map[y].len() && x < width_of(map)
    &&& map[y][x] == '.'
    &&& !(x == start.x && y == start.y)
    &&& near_visited(visited, x, y)
    &&& !leaves(obstructed(map, x, y), start)
}

/// How many cells of row `y` before column `bound` trap the guard.
pub open spec fn traps_in_row(map: Seq<Seq<char>>, start: Pose, visited: Seq<Seq<bool>>, y: int, bound: int) -> nat
    decreases bound,
{
    if bound <= 0 {
        0
    } else {
        traps_in_row(map, start, visited, y, bound - 1) + if traps(map, start, visited, bound - 1, y) {
            1nat
        } else {
            0nat
        }
    }
}

/// How many cells of the rows before `bound` trap the guard.
pub open spec fn traps_in_rows(map: Seq<Seq<char>>, start: Pose, visited: Seq<Seq<bool>>, bound: int) -> nat
    decreases bound,
{
    if bound <= 0 {
        0
    } else {
        traps_in_rows(map, start, visited, bound - 1) + traps_in_row(
            map,
            start,
            visited,
            bound - 1,
            width_of(map),
        )
    }
}

pub proof fn lemma_traps_row_bound(map: Seq<Seq<char>>, start: Pose, visited: Seq<Seq<bool>>, y: int, bound: int)
    requires
        0 <= bound,
    ensures
        traps_in_row(map, start, visited, y, bound) <= bound,
    decreases bound,
{
    if bound > 0 {
        lemma_traps_row_bound(map, start, visited, y, bound - 1);
    }
}

pub proof fn lemma_traps_rows_bound(map: Seq<Seq<char>>, start: Pose, visited: Seq<Seq<bool>>, bound: int)
    requires
        0 <= bound,
    ensures
        traps_in_rows(map, start, visited, bound) <= bound * width_of(map),
    decreases bound,
{
    if bound > 0 {
        lemma_traps_rows_bound(map, start, visited, bound - 1);
        lemma_traps_row_bound(map, start, visited, bound - 1, width_of(map));
        assert(bound * width_of(map) == (bound - 1) * width_of(map) + width_of(map))
            by (nonlinear_arith);
    }
}

/// Replaces the character at column `x` of row `y`.
fn set_char(map: &mut Vec<Vec<char>>, x: usize, y: usize, c: char)
    requires
        y < old(map).len(),
        x < old(map)[y as int].len(),
    ensures
        views(final(map)@) == views(old(map)@).update(y as int, views(old(map)@)[y as int].update(x as int, c)),
{
    let ghost before = views(map@);
    let mut row: Vec<char> = Vec::new();
    map.set_and_swap(y, &mut row);
    row.set(x, c);
    map.set(y, row);
    assert(views(map@) =~= before.update(y as int, before[y as int].update(x as int, c)));
}

/// Counts the free cells beside the walk of the guard where one more
/// obstacle makes her walk in a loop. There is no count for a map without
/// guard, or with more cells than the machine can count.
pub fn solve(input: &str) -> (r: Option<u128>)
    ensures
        match r {
            Some(cycles) => exists|start: Pose, visited: Seq<Seq<bool>>|
                #![trigger traps_in_rows(lines_of(input@), start, visited, lines_of(input@).len() as int)]
                is_start(lines_of(input@), start) && (forall|x: int, y: int|
                    0 <= y < lines_of(input@).len() && 0 <= x < width_of(lines_of(input@)) ==> (lit(
                        visited,
                        x,
                        y,
                    ) <==> passes(lines_of(input@), start, x, y))) && visited.len() == lines_of(
                    input@,
                ).len() && (forall|y: int|
                    0 <= y < visited.len() ==> (#[trigger] visited[y]).len() == width_of(
                        lines_of(input@),
                    )) && cycles == traps_in_rows(
                    lines_of(input@),
                    start,
                    visited,
                    lines_of(input@).len() as int,
                ),
            None => (forall|x: int, y: int| !guard_at(lines_of(input@), x, y)) || width_of(
                lines_of(input@),
            ) * lines_of(input@).len() > usize::MAX,
        },
{
    let text = chars_of(input);
    let mut map = split_lines(&text);
    let ghost m = views(map@);
    let start = match find_guard(&map) {
        Some(s) => s,
        None => {
            return None;
        },
    };
    let visited = match travel_map(&map, start) {
        Some(v) => v,
        None => {
            return None;
        },
    };
    let ghost v = views(visited@);
    let width = map[0].len();
    assert(m[0] == map@[0]@);
    let height = map.len();
    let mut cycles: u128 = 0;
    let mut y: usize = 0;
    while y < height
        invariant
            y <= height,
            height == map.len(),
            m == views(map@),
            v == views(visited@),
            width == width_of(m),
            on_map(m, start),
            width_of(m) * map.len() <= usize::MAX,
            cycles == traps_in_rows(m, start, v, y as int),
        decreases height - y,
    {
        let mut in_row: u128 = 0;
        let mut x: usize = 0;
        while x < width
            invariant
                x <= width,
                y < height,
                height == map.len(),
                m == views(map@),
                v == views(visited@),
                width == width_of(m),
                on_map(m, start),
                width_of(m) * map.len() <= usize::MAX,
                in_row == traps_in_row(m, start, v, y as int, x as int),
                in_row <= x,
            decreases width - x,
        {
            assert(m[y as int] == map@[y as int]@);
            let candidate = x < map[y].len() && map[y][x] == '.' && !(x == start.x && y == start.y)
                && is_near_visited(&visited, x, y);
            if candidate {
                set_char(&mut map, x, y, '#');
                proof {
                    assert(views(map@) == obstructed(m, x as int, y as int));
                    assert(width_of(views(map@)) == width_of(m)) by {
                        if y == 0 {
                        }
                    }
                    assert(on_map(views(map@), start));
                }
                let has_cycle = match check_cycle_in_map(&map, start) {
                    Some(b) => b,
                    None => false,
                };
                if has_cycle {
                    in_row += 1;
                }
                proof {
                    assert(views(map@)[y as int] == map@[y as int]@);
                    assert(views(map@)[y as int].len() == m[y as int].len());
                }
                set_char(&mut map, x, y, '.');
                proof {
                    assert(views(map@)[y as int] =~= m[y as int]);
                    assert(views(map@) =~= m);
                }
            }
            x += 1;
        }
        proof {
            lemma_traps_rows_bound(m, start, v, y as int);
            assert(y * width_of(m) <= 0xffff_ffff_ffff_ffff * 0xffff_ffff_ffff_ffff) by (nonlinear_arith)
                requires
                    y <= 0xffff_ffff_ffff_ffff,
                    0 <= width_of(m) <= 0xffff_ffff_ffff_ffff,
            ;
        }
        cycles += in_row;
        y += 1;
    }
    Some(cycles)
}

} // verus!
