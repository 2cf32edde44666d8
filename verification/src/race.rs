//! A race track through a grid: its shortest course, and the shortcuts
//! that a racer may take between two places of the course.

use vstd::prelude::*;
use crate::lattice::{
    beside, is_trail, is_trail_to, least_steps, no_trail, opens_onto, Lattice, Spread,
};
use crate::maze::grid::{holds, occurs, reads_before};
use crate::maze::table::{lemma_slot_in_range, slot};
use crate::text::views;

verus! {

/// The four ways to go on the track.
#[derive(Debug, PartialEq, Eq, Structural, Hash, Clone, Copy)]
pub enum Direction {
    UP,
    RIGHT,
    DOWN,
    LEFT,
}

impl Default for Direction {
    fn default() -> (d: Direction)
        ensures
            d == Direction::UP,
    {
        Direction::UP
    }
}

impl Direction {
    /// The change of `(row, column)` that one step makes.
    pub open spec fn offset(self) -> (int, int) {
        match self {
            Direction::UP => (-1, 0),
            Direction::RIGHT => (0, 1),
            Direction::DOWN => (1, 0),
            Direction::LEFT => (0, -1),
        }
    }

    /// The four directions, clockwise from up.
    pub fn all() -> (a: [Direction; 4])
        ensures
            a@ == seq![Direction::UP, Direction::RIGHT, Direction::DOWN, Direction::LEFT],
    {
        let a = [Direction::UP, Direction::RIGHT, Direction::DOWN, Direction::LEFT];
        assert(a@ =~= seq![Direction::UP, Direction::RIGHT, Direction::DOWN, Direction::LEFT]);
        a
    }

    /// The change of `(row, column)` that one step makes.
    pub fn unit(&self) -> (u: (i64, i64))
        ensures
            (u.0 as int, u.1 as int) == self.offset(),
    {
        match self {
            Direction::UP => (-1, 0),
            Direction::RIGHT => (0, 1),
            Direction::DOWN => (1, 0),
            Direction::LEFT => (0, -1),
        }
    }
}

/// The place `(row, column)` of a character matrix is part of the track:
/// it holds anything but `'#'`.
pub open spec fn track_cell(rows: Seq<Seq<char>>, p: (usize, usize)) -> bool {
    p.0 < rows.len() && p.1 < rows[p.0 as int].len() && rows[p.0 as int][p.1 as int] != '#'
}

/// The length of the longest row.
pub open spec fn widest(rows: Seq<Seq<char>>) -> nat
    decreases rows.len(),
{
    if rows.len() == 0 {
        0
    } else if widest(rows.drop_last()) >= rows.last().len() {
        widest(rows.drop_last())
    } else {
        rows.last().len()
    }
}

pub proof fn lemma_widest(rows: Seq<Seq<char>>, y: int)
    requires
        0 <= y < rows.len(),
    ensures
        rows[y].len() <= widest(rows),
    decreases rows.len(),
{
    if y < rows.len() - 1 {
        lemma_widest(rows.drop_last(), y);
    }
}

/// `p`, as `(row, column)`, is the last place in reading order that holds
/// `target`; it is `(0, 0)` if no place does.
pub open spec fn marked(rows: Seq<Seq<char>>, target: char, p: (usize, usize)) -> bool {
    if occurs(rows, target) {
        &&& holds(rows, target, p.1 as int, p.0 as int)
        &&& forall|x2: int, y2: int| #[trigger]
            holds(rows, target, x2, y2) ==> !reads_before(p.1 as int, p.0 as int, x2, y2)
    } else {
        p == (0usize, 0usize)
    }
}

/// The last place in reading order where `target` stands, as `(row,
/// column)`; `(0, 0)` if it stands nowhere.
pub fn find_last(rows: &Vec<Vec<char>>, target: char) -> (p: (usize, usize))
    ensures
        marked(views(rows@), target, p),
{
    let ghost m = views(rows@);
    let mut found: (usize, usize) = (0, 0);
    let mut any = false;
    let mut y: usize = 0;
    while y < rows.len()
        invariant
            y <= rows.len(),
            m == views(rows@),
            !any ==> found == (0usize, 0usize),
            !any ==> forall|x2: int, y2: int| #[trigger] holds(m, target, x2, y2) ==> y2 >= y,
            any ==> holds(m, target, found.1 as int, found.0 as int) && found.0 < y,
            any ==> forall|x2: int, y2: int| #[trigger]
                holds(m, target, x2, y2) ==> y2 >= y || !reads_before(
                    found.1 as int,
                    found.0 as int,
                    x2,
                    y2,
                ),
        decreases rows.len() - y,
    {
        let row = &rows[y];
        assert(m[y as int] == row@);
        let mut x: usize = 0;
        while x < row.len()
            invariant
                x <= row.len(),
                y < rows.len(),
                m == views(rows@),
                m[y as int] == row@,
                !any ==> found == (0usize, 0usize),
                !any ==> forall|x2: int, y2: int| #[trigger]
                    holds(m, target, x2, y2) ==> !reads_before(x2, y2, x as int, y as int),
                any ==> holds(m, target, found.1 as int, found.0 as int) && reads_before(
                    found.1 as int,
                    found.0 as int,
                    x as int,
                    y as int,
                ),
                any ==> forall|x2: int, y2: int| #[trigger]
                    holds(m, target, x2, y2) ==> !reads_before(x2, y2, x as int, y as int)
                        || !reads_before(found.1 as int, found.0 as int, x2, y2),
            decreases row.len() - x,
        {
            if row[x] == target {
                found = (y, x);
                any = true;
                assert(holds(m, target, x as int, y as int));
            }
            x += 1;
        }
        y += 1;
    }
    proof {
        if any {
            assert(holds(m, target, found.1 as int, found.0 as int));
        }
    }
    found
}

/// A step on the track leads from `a` to a neighbouring place of the track.
pub open spec fn track_step(maze: Set<(usize, usize)>, a: (usize, usize), b: (usize, usize)) -> bool {
    &&& maze.contains(b)
    &&& ((a.0 == b.0 && (a.1 + 1 == b.1 || b.1 + 1 == a.1)) || (a.1 == b.1 && (a.0 + 1 == b.0 || b.0
        + 1 == a.0)))
}

/// A course is a sequence of places that begins at `start` and goes on by
/// steps on the track.
pub open spec fn is_course(maze: Set<(usize, usize)>, start: (usize, usize), p: Seq<(usize, usize)>) -> bool {
    &&& p.len() > 0
    &&& p[0] == start
    &&& forall|i: int| 0 <= i < p.len() - 1 ==> track_step(maze, #[trigger] p[i], p[i + 1])
}

/// `p` is a course from `start` to `end`, and no course between them is
/// shorter.
pub open spec fn shortest_course(
    maze: Set<(usize, usize)>,
    start: (usize, usize),
    end: (usize, usize),
    p: Seq<(usize, usize)>,
) -> bool {
    &&& is_course(maze, start, p)
    &&& p.last() == end
    &&& forall|q: Seq<(usize, usize)>| #[trigger]
        is_course(maze, start, q) && q.last() == end ==> p.len() <= q.len()
}

/// No course leads from `start` to `end`.
pub open spec fn no_course(maze: Set<(usize, usize)>, start: (usize, usize), end: (usize, usize)) -> bool {
    forall|q: Seq<(usize, usize)>| !(#[trigger] is_course(maze, start, q) && q.last() == end)
}

/// A place with its coordinates exchanged.
pub open spec fn swap(p: (usize, usize)) -> (usize, usize) {
    (p.1, p.0)
}

/// A race: the track, where it starts and ends, and the course found.
pub struct Race {
    size: (usize, usize),
    start: (usize, usize),
    end: (usize, usize),
    rows: usize,
    cols: usize,
    open: Vec<bool>,
    lattice: Lattice,
    path: Vec<(usize, usize)>,
}

impl Race {
    /// Rows of the input, and characters of its first row.
    pub closed spec fn size(&self) -> (usize, usize) {
        self.size
    }

    /// Where the race starts, as `(row, column)`.
    pub closed spec fn start(&self) -> (usize, usize) {
        self.start
    }

    /// Where the race ends, as `(row, column)`.
    pub closed spec fn end(&self) -> (usize, usize) {
        self.end
    }

    /// The places of the track, as `(row, column)`.
    pub closed spec fn maze(&self) -> Set<(usize, usize)> {
        Set::new(
            |p: (usize, usize)|
                p.0 < self.rows && p.1 < self.cols && self.open@[slot(
                    self.cols as int,
                    p.1 as int,
                    p.0 as int,
                )],
        )
    }

    /// The links between the places of the track, with places as
    /// `(column, row)`.
    pub closed spec fn links(&self) -> Lattice {
        self.lattice
    }

    /// The course found.
    pub closed spec fn path(&self) -> Seq<(usize, usize)> {
        self.path@
    }

    /// The invariant of every race.
    pub closed spec fn wf(&self) -> bool {
        &&& self.open.len() == self.cols * self.rows
        &&& self.rows > 0
        &&& (self.cols > 0 ==> self.start.0 < self.rows && self.start.1 < self.cols && self.end.0
            < self.rows && self.end.1 < self.cols)
        &&& self.lattice.wf()
        &&& self.lattice.width() == self.cols
        &&& self.lattice.height() == self.rows
        &&& forall|a: (usize, usize), d: crate::maze::heading::Direction|
            self.lattice.linked(a, d) <==> opens_onto(
                self.cols as nat,
                self.rows as nat,
                self.open@,
                a,
                d,
            )
    }

    /// Reads a race from a character matrix: `'#'` is off the track, the
    /// last `'S'` is the start and the last `'E'` the end. There is no race
    /// without rows, nor where the rows times the longest row exceed what
    /// the machine can count.
    pub fn from_input(lines: &Vec<Vec<char>>) -> (r: Option<Race>)
        ensures
            match r {
                Some(race) => {
                    &&& lines.len() > 0
                    &&& lines.len() * widest(views(lines@)) <= usize::MAX
                    &&& race.wf()
                    &&& race.size() == (lines.len(), lines[0].len())
                    &&& forall|p: (usize, usize)|
                        race.maze().contains(p) <==> track_cell(views(lines@), p)
                    &&& marked(views(lines@), 'S', race.start())
                    &&& marked(views(lines@), 'E', race.end())
                    &&& race.path() == Seq::<(usize, usize)>::empty()
                },
                None => lines.len() == 0 || lines.len() * widest(views(lines@)) > usize::MAX,
            },
    {
        let ghost m = views(lines@);
        let height = lines.len();
        if height == 0 {
            return None;
        }
        let mut width: usize = 0;
        let mut y: usize = 0;
        while y < height
            invariant
                y <= height,
                height == lines.len(),
                m == views(lines@),
                width == widest(m.take(y as int)),
            decreases height - y,
        {
            proof {
                assert(m.take(y + 1).drop_last() =~= m.take(y as int));
                assert(m.take(y + 1).last() == lines@[y as int]@);
            }
            if lines[y].len() > width {
                width = lines[y].len();
            }
            y += 1;
        }
        assert(m.take(height as int) =~= m);
        let cells = match height.checked_mul(width) {
            Some(n) => n,
            None => {
                return None;
            },
        };
        let mut open: Vec<bool> = Vec::new();
        y = 0;
        while y < height
            invariant
                y <= height,
                height == lines.len(),
                m == views(lines@),
                width == widest(m),
                open.len() == y * width,
                forall|x2: int, y2: int|
                    0 <= y2 < y && 0 <= x2 < width ==> open@[#[trigger] slot(width as int, x2, y2)]
                        == track_cell(m, (y2 as usize, x2 as usize)),
            decreases height - y,
        {
            let row = &lines[y];
            assert(m[y as int] == row@);
            let mut x: usize = 0;
            while x < width
                invariant
                    x <= width,
                    y < height,
                    height == lines.len(),
                    m == views(lines@),
                    m[y as int] == row@,
                    open.len() == y * width + x,
                    forall|x2: int, y2: int|
                        0 <= y2 < y && 0 <= x2 < width ==> open@[#[trigger] slot(
                            width as int,
                            x2,
                            y2,
                        )] == track_cell(m, (y2 as usize, x2 as usize)),
                    forall|x2: int|
                        0 <= x2 < x ==> open@[#[trigger] slot(width as int, x2, y as int)]
                            == track_cell(m, (y, x2 as usize)),
                decreases width - x,
            {
                let on_track = x < row.len() && row[x] != '#';
                proof {
                    assert forall|x2: int, y2: int| 0 <= y2 < y && 0 <= x2 < width implies slot(
                        width as int,
                        x2,
                        y2,
                    ) < open.len() by {
                        lemma_slot_in_range(width as int, y as int, x2, y2);
                        assert(width * y == y * width) by (nonlinear_arith);
                    }
                }
                open.push(on_track);
                x += 1;
            }
            proof {
                assert((y + 1) * width == y * width + width) by (nonlinear_arith);
            }
            y += 1;
        }
        proof {
            assert(width * height == height * width) by (nonlinear_arith);
        }
        let lattice = Lattice::from_open(width, height, &open);
        let start = find_last(lines, 'S');
        let end = find_last(lines, 'E');
        let race = Race {
            size: (height, lines[0].len()),
            start,
            end,
            rows: height,
            cols: width,
            open,
            lattice,
            path: Vec::new(),
        };
        proof {
            if occurs(m, 'S') {
                lemma_widest(m, start.0 as int);
            }
            if occurs(m, 'E') {
                lemma_widest(m, end.0 as int);
            }
            assert forall|p: (usize, usize)| race.maze().contains(p) <==> track_cell(m, p) by {
                if track_cell(m, p) {
                    lemma_widest(m, p.0 as int);
                }
                if p.0 < height && p.1 < width {
                    assert(race.open@[slot(width as int, p.1 as int, p.0 as int)] == track_cell(
                        m,
                        (p.0 as int as usize, p.1 as int as usize),
                    ));
                }
            }
        }
        Some(race)
    }

    /// A course through the track is a trail through its lattice, and the
    /// other way round.
    proof fn lemma_course_trail(&self, p: Seq<(usize, usize)>)
        requires
            self.wf(),
            self.lattice.contains(swap(p[0])),
            p.len() > 0,
        ensures
            is_course(self.maze(), p[0], p) <==> is_trail(&self.lattice, p.map_values(|c| swap(c))),
    {
        let t = p.map_values(|c| swap(c));
        let l = &self.lattice;
        let maze = self.maze();
        if is_course(maze, p[0], p) {
            assert forall|i: int| 0 <= i < t.len() - 1 implies l.joined(#[trigger] t[i], t[i + 1]) by {
                let a = p[i];
                let b = p[i + 1];
                assert(track_step(maze, p[i], p[i + 1]));
                if i > 0 {
                    assert(track_step(maze, p[i - 1], p[i]));
                }
                let d = if b.0 == a.0 + 1 {
                    crate::maze::heading::Direction::South
                } else if b.0 + 1 == a.0 {
                    crate::maze::heading::Direction::North
                } else if b.1 == a.1 + 1 {
                    crate::maze::heading::Direction::East
                } else {
                    crate::maze::heading::Direction::West
                };
                assert(opens_onto(self.cols as nat, self.rows as nat, self.open@, swap(a), d));
                assert(l.linked(swap(a), d));
                assert(beside(swap(a), d) == (swap(b).0 as int, swap(b).1 as int));
            }
        }
        if is_trail(l, t) {
            assert forall|i: int| 0 <= i < p.len() - 1 implies track_step(
                maze,
                #[trigger] p[i],
                p[i + 1],
            ) by {
                assert(l.joined(t[i], t[i + 1]));
                let d = choose|d: crate::maze::heading::Direction| #[trigger]
                    l.linked(t[i], d) && beside(t[i], d) == (t[i + 1].0 as int, t[i + 1].1 as int);
                assert(opens_onto(self.cols as nat, self.rows as nat, self.open@, t[i], d));
            }
        }
    }

    /// Takes the course to the end from what a search of the track found:
    /// a shortest course if one leads there, else the end alone.
    pub fn reconstruct_path(&mut self, backlink: &Spread) -> (r: Option<()>)
        requires
            old(self).wf(),
            backlink.of(&old(self).links()),
            backlink.from() == swap(old(self).start()),
            old(self).links().contains(swap(old(self).start())),
            old(self).links().contains(swap(old(self).end())),
        ensures
            r is Some,
            final(self).wf(),
            final(self).size() == old(self).size(),
            final(self).start() == old(self).start(),
            final(self).end() == old(self).end(),
            final(self).maze() == old(self).maze(),
            shortest_course(
                final(self).maze(),
                final(self).start(),
                final(self).end(),
                final(self).path(),
            ) || (no_course(final(self).maze(), final(self).start(), final(self).end())
                && final(self).path() == seq![final(self).end()]),
    {
        let ghost maze = self.maze();
        let ghost start = self.start;
        let ghost end = self.end;
        let target = (self.end.1, self.end.0);
        let mut path: Vec<(usize, usize)> = Vec::new();
        match backlink.trail_to(&self.lattice, target) {
            Some(trail) => {
                let mut i: usize = 0;
                while i < trail.len()
                    invariant
                        i <= trail.len(),
                        path@.len() == i,
                        forall|k: int| 0 <= k < i ==> path@[k] == swap(trail@[k]),
                    decreases trail.len() - i,
                {
                    let c = trail[i];
                    path.push((c.1, c.0));
                    i += 1;
                }
                proof {
                    let p = path@;
                    assert(p.map_values(|c| swap(c)) =~= trail@);
                    self.lemma_course_trail(p);
                    assert forall|q: Seq<(usize, usize)>| #[trigger]
                        is_course(maze, start, q) && q.last() == end implies p.len() <= q.len() by {
                        self.lemma_course_trail(q);
                        let t = q.map_values(|c| swap(c));
                        assert(is_trail_to(&self.lattice, swap(start), t, target));
                    }
                }
            },
            None => {
                path.push(self.end);
                proof {
                    assert(path@ =~= seq![end]);
                    assert forall|q: Seq<(usize, usize)>| !(#[trigger] is_course(maze, start, q)
                        && q.last() == end) by {
                        if is_course(maze, start, q) && q.last() == end {
                            self.lemma_course_trail(q);
                            let t = q.map_values(|c| swap(c));
                            assert(is_trail_to(&self.lattice, swap(start), t, target));
                        }
                    }
                }
            },
        }
        self.path = path;
        Some(())
    }

    /// Finds a shortest course from the start to the end; where none leads
    /// there, the course is the end alone.
    pub fn find_path(&mut self) -> (r: Option<()>)
        requires
            old(self).wf(),
        ensures
            r is Some,
            final(self).wf(),
            final(self).size() == old(self).size(),
            final(self).start() == old(self).start(),
            final(self).end() == old(self).end(),
            final(self).maze() == old(self).maze(),
            shortest_course(
                final(self).maze(),
                final(self).start(),
                final(self).end(),
                final(self).path(),
            ) || (no_course(final(self).maze(), final(self).start(), final(self).end())
                && final(self).path() == seq![final(self).end()]),
    {
        let from = (self.start.1, self.start.0);
        let to = (self.end.1, self.end.0);
        let inside = from.0 < self.cols && from.1 < self.rows && to.0 < self.cols && to.1 < self.rows;
        if inside {
            let found = self.lattice.spread(from);
            self.reconstruct_path(&found)
        } else {
            let ghost maze = self.maze();
            let ghost start = self.start;
            let ghost end = self.end;
            let mut path: Vec<(usize, usize)> = Vec::new();
            path.push(self.end);
            self.path = path;
            proof {
                let p = seq![end];
                assert(self.path@ =~= p);
                if start == end {
                    assert(is_course(maze, start, p));
                } else {
                    assert(self.cols == 0);
                    assert forall|q: Seq<(usize, usize)>| !(#[trigger] is_course(maze, start, q)
                        && q.last() == end) by {
                        if is_course(maze, start, q) && q.last() == end {
                            assert(q.len() > 1);
                            assert(track_step(maze, q[0], q[1]));
                            assert(maze.contains(q[1]));
                        }
                    }
                }
            }
            Some(())
        }
    }

    /// The course found, as `(row, column)` places.
    pub fn course(&self) -> (p: &Vec<(usize, usize)>)
        ensures
            p@ == self.path(),
    {
        &self.path
    }
}

/// The least saving, in steps, that makes a shortcut count.
pub const SAVING: usize = 100;

/// How far two places are apart when walls do not count.
pub open spec fn manhattan(a: (usize, usize), b: (usize, usize)) -> nat {
    let dr = if a.0 >= b.0 {
        a.0 - b.0
    } else {
        b.0 - a.0
    };
    let dc = if a.1 >= b.1 {
        a.1 - b.1
    } else {
        b.1 - a.1
    };
    (dr + dc) as nat
}

/// Going straight from the `i`-th to the `j`-th place of the course takes
/// no more than `picosec` steps and saves at least `SAVING` steps.
pub open spec fn is_cheat(path: Seq<(usize, usize)>, picosec: nat, i: int, j: int) -> bool {
    &&& 0 <= i && i + 3 <= j && j < path.len()
    &&& manhattan(path[i], path[j]) <= picosec
    &&& j - i - manhattan(path[i], path[j]) >= SAVING
}

/// How many `j` below `bound` make a cheat with `i`.
pub open spec fn cheats_from(path: Seq<(usize, usize)>, picosec: nat, i: int, bound: int) -> nat
    decreases bound,
{
    if bound <= 0 {
        0
    } else {
        cheats_from(path, picosec, i, bound - 1) + if is_cheat(path, picosec, i, bound - 1) {
            1nat
        } else {
            0nat
        }
    }
}

/// How many pairs `(i, j)` with `i` below `bound` are cheats.
pub open spec fn cheats_below(path: Seq<(usize, usize)>, picosec: nat, bound: int) -> nat
    decreases bound,
{
    if bound <= 0 {
        0
    } else {
        cheats_below(path, picosec, bound - 1) + cheats_from(
            path,
            picosec,
            bound - 1,
            path.len() as int,
        )
    }
}

pub proof fn lemma_cheats_from_bound(path: Seq<(usize, usize)>, picosec: nat, i: int, bound: int)
    requires
        0 <= bound,
    ensures
        cheats_from(path, picosec, i, bound) <= bound,
        bound <= i + 3 ==> cheats_from(path, picosec, i, bound) == 0,
    decreases bound,
{
    if bound > 0 {
        lemma_cheats_from_bound(path, picosec, i, bound - 1);
    }
}

pub proof fn lemma_cheats_below_bound(path: Seq<(usize, usize)>, picosec: nat, bound: int)
    requires
        0 <= bound,
    ensures
        cheats_below(path, picosec, bound) <= bound * path.len(),
    decreases bound,
{
    if bound > 0 {
        lemma_cheats_below_bound(path, picosec, bound - 1);
        lemma_cheats_from_bound(path, picosec, bound - 1, path.len() as int);
        assert(bound * path.len() == (bound - 1) * path.len() + path.len()) by (nonlinear_arith);
    }
}

/// Places from which no cheat begins add nothing.
pub proof fn lemma_cheats_tail(path: Seq<(usize, usize)>, picosec: nat, from: int, bound: int)
    requires
        0 <= from <= bound,
        from + 3 >= path.len(),
    ensures
        cheats_below(path, picosec, bound) == cheats_below(path, picosec, from),
    decreases bound - from,
{
    if bound > from {
        lemma_cheats_tail(path, picosec, from, bound - 1);
        lemma_cheats_zero(path, picosec, bound - 1, path.len() as int);
    }
}

pub proof fn lemma_cheats_zero(path: Seq<(usize, usize)>, picosec: nat, i: int, bound: int)
    requires
        0 <= bound <= path.len(),
        i + 3 >= path.len(),
    ensures
        cheats_from(path, picosec, i, bound) == 0,
    decreases bound,
{
    if bound > 0 {
        lemma_cheats_zero(path, picosec, i, bound - 1);
    }
}

/// Counts the pairs of places on the course, at least three steps apart,
/// between which a racer who may pass through walls for `picosec` steps
/// saves at least `SAVING` steps.
pub fn get_count_of_ways_to_cheat(race: &Race, picosec: usize) -> (total: u128)
    ensures
        total == cheats_below(race.path(), picosec as nat, race.path().len() as int),
{
    let path = &race.path;
    let n = path.len();
    let mut total: u128 = 0;
    let limit: usize = if n >= 3 {
        n - 3
    } else {
        0
    };
    let mut i: usize = 0;
    while i < limit
        invariant
            i <= limit,
            limit + 3 <= n || limit == 0,
            n == path.len(),
            total == cheats_below(path@, picosec as nat, i as int),
        decreases limit - i,
    {
        let mut row: u128 = 0;
        let mut j: usize = i + 3;
        proof {
            lemma_cheats_from_bound(path@, picosec as nat, i as int, i + 3);
        }
        while j < n
            invariant
                i + 3 <= j <= n,
                n == path.len(),
                row == cheats_from(path@, picosec as nat, i as int, j as int),
                row <= j,
            decreases n - j,
        {
            let a = path[i];
            let b = path[j];
            let dr: u128 = if a.0 >= b.0 {
                (a.0 - b.0) as u128
            } else {
                (b.0 - a.0) as u128
            };
            let dc: u128 = if a.1 >= b.1 {
                (a.1 - b.1) as u128
            } else {
                (b.1 - a.1) as u128
            };
            let manhattan_distance: u128 = dr + dc;
            let gap: u128 = (j - i) as u128;
            if manhattan_distance <= picosec as u128 && gap > manhattan_distance {
                if gap - manhattan_distance >= SAVING as u128 {
                    row += 1;
                }
            }
            j += 1;
        }
        proof {
            lemma_cheats_below_bound(path@, picosec as nat, i as int);
            assert(i * n <= 0xffff_ffff_ffff_ffff * 0xffff_ffff_ffff_ffff) by (nonlinear_arith)
                requires
                    i <= 0xffff_ffff_ffff_ffff,
                    n <= 0xffff_ffff_ffff_ffff,
            ;
        }
        total += row;
        i += 1;
    }
    proof {
        lemma_cheats_tail(path@, picosec as nat, limit as int, n as int);
    }
    total
}

/// Which of the two questions is asked: with a cheat of 2 steps, or of 20.
#[derive(PartialEq, Eq, Debug, Clone, Copy)]
pub enum Part {
    Part1,
    Part2,
}

impl Part {
    /// How many steps a cheat may take.
    pub open spec fn reach(self) -> nat {
        match self {
            Part::Part1 => 2,
            Part::Part2 => 20,
        }
    }
}

/// `path` is what a race on the given matrix runs along: a shortest
/// course from the last `'S'` to the last `'E'`, or the end alone where no
/// course leads there.
pub open spec fn runs_along(lines: Seq<Seq<char>>, path: Seq<(usize, usize)>) -> bool {
    exists|start: (usize, usize), end: (usize, usize)|
        {
            let maze = Set::new(|p: (usize, usize)| track_cell(lines, p));
            &&& #[trigger] marked(lines, 'S', start)
            &&& #[trigger] marked(lines, 'E', end)
            &&& (shortest_course(maze, start, end, path) || (no_course(maze, start, end) && path
                == seq![end]))
        }
}

/// The number of cheats on the race that a character matrix shows. There
/// is none without rows, nor where the rows times the longest row exceed
/// what the machine can count.
pub fn get_value(lines: &Vec<Vec<char>>, part: Part) -> (r: Option<u128>)
    ensures
        r is None <==> lines.len() == 0 || lines.len() * widest(views(lines@)) > usize::MAX,
        r is Some ==> exists|path: Seq<(usize, usize)>| #[trigger]
            runs_along(views(lines@), path) && r.unwrap() == cheats_below(
                path,
                part.reach(),
                path.len() as int,
            ),
{
    let mut race = match Race::from_input(lines) {
        Some(race) => race,
        None => {
            return None;
        },
    };
    let ghost start = race.start();
    let ghost end = race.end();
    let ghost maze = race.maze();
    race.find_path();
    let picosec: usize = match part {
        Part::Part1 => 2,
        Part::Part2 => 20,
    };
    let total = get_count_of_ways_to_cheat(&race, picosec);
    proof {
        let m = Set::new(|p: (usize, usize)| track_cell(views(lines@), p));
        assert(m =~= maze);
        assert(marked(views(lines@), 'S', start) && marked(views(lines@), 'E', end));
        assert(runs_along(views(lines@), race.path()));
    }
    Some(total)
}

} // verus!
