//! A maze walked by a robot that faces a direction: a step forward costs 1,
//! a quarter turn on the spot costs 1000 and is always allowed. The search
//! yields a cheapest way from the start, facing east, to the end, with the
//! places it passes.

use vstd::prelude::*;
use crate::graph::{
    arc, graph_ok, is_least, is_walk_to, lemma_edge, lemma_least_unique, shortest_paths, toll,
    walk_cost, Coding, Graph,
};
use crate::maze::grid::{holds, occurs, rectangular, Cell, Maze};
use crate::maze::route::{is_min_cost, is_move, is_route, move_cost, route_cost, CostModel};
use crate::maze::table::{lemma_slot_in_range, lemma_slot_injective, slot};
use crate::race::{find_last, marked};
use crate::text::{chars_of, lines_of, split_lines, views};

verus! {

/// What a place of the map holds.
#[derive(Debug, Copy, Clone, PartialEq, Eq, Structural)]
pub enum Thing {
    Wall,
    Robot,
    End,
    Empty,
}

/// A place of the map with what it holds.
#[derive(Debug, Copy, Clone, PartialEq, Eq, Structural)]
pub struct Item {
    pub x: i32,
    pub y: i32,
    pub thing: Thing,
}

/// A facing direction. Rows grow to the south, columns to the east.
#[derive(Debug, Copy, Clone, PartialEq, Eq, Structural, Hash)]
pub enum Direction {
    North,
    South,
    East,
    West,
}

/// A place and a facing direction.
#[derive(Debug, Copy, Clone, PartialEq, Eq, Structural)]
pub struct Pose {
    pub x: i32,
    pub y: i32,
    pub dir: Direction,
}

impl Direction {
    pub open spec fn left(self) -> Direction {
        match self {
            Direction::North => Direction::West,
            Direction::West => Direction::South,
            Direction::South => Direction::East,
            Direction::East => Direction::North,
        }
    }

    pub open spec fn right(self) -> Direction {
        match self {
            Direction::North => Direction::East,
            Direction::East => Direction::South,
            Direction::South => Direction::West,
            Direction::West => Direction::North,
        }
    }

    pub open spec fn dx(self) -> int {
        match self {
            Direction::East => 1,
            Direction::West => -1,
            _ => 0,
        }
    }

    pub open spec fn dy(self) -> int {
        match self {
            Direction::South => 1,
            Direction::North => -1,
            _ => 0,
        }
    }

    /// The number of a direction, from 0 to 3.
    pub open spec fn number(self) -> int {
        match self {
            Direction::North => 0,
            Direction::South => 1,
            Direction::East => 2,
            Direction::West => 3,
        }
    }
}

/// The direction to the left of `dir`.
pub fn turn_left(dir: Direction) -> (d: Direction)
    ensures
        d == dir.left(),
{
    match dir {
        Direction::North => Direction::West,
        Direction::West => Direction::South,
        Direction::South => Direction::East,
        Direction::East => Direction::North,
    }
}

/// The direction to the right of `dir`.
pub fn turn_right(dir: Direction) -> (d: Direction)
    ensures
        d == dir.right(),
{
    match dir {
        Direction::North => Direction::East,
        Direction::East => Direction::South,
        Direction::South => Direction::West,
        Direction::West => Direction::North,
    }
}

/// What a character of the text stands for.
pub open spec fn thing_of(ch: char) -> Thing {
    if ch == '#' {
        Thing::Wall
    } else if ch == 'S' {
        Thing::Robot
    } else if ch == 'E' {
        Thing::End
    } else {
        Thing::Empty
    }
}

/// The largest number of places a map may have: each place takes four
/// numbers when the map is searched.
pub open spec fn fits(width: nat, height: nat) -> bool {
    width <= i32::MAX && height <= i32::MAX && 4 * width * height <= usize::MAX
}

/// A rectangular map.
pub struct Chart {
    width: usize,
    height: usize,
    items: Vec<Vec<Item>>,
}

impl View for Chart {
    type V = Seq<Seq<Thing>>;

    closed spec fn view(&self) -> Seq<Seq<Thing>> {
        Seq::new(
            self.items.len() as nat,
            |y: int| Seq::new(self.items@[y].len() as nat, |x: int| self.items@[y]@[x].thing),
        )
    }
}

/// The place `(x, y)` lies on the map.
pub open spec fn on_map(m: Seq<Seq<Thing>>, x: int, y: int) -> bool {
    0 <= y < m.len() && 0 <= x < m[0].len()
}

/// The place `(x, y)` lies on the map and holds no wall.
pub open spec fn free(m: Seq<Seq<Thing>>, x: int, y: int) -> bool {
    on_map(m, x, y) && m[y][x] != Thing::Wall
}

/// The map is a rectangle with at least one row, small enough to search.
pub open spec fn map_ok(m: Seq<Seq<Thing>>) -> bool {
    &&& m.len() > 0
    &&& forall|y: int| 0 <= y < m.len() ==> (#[trigger] m[y]).len() == m[0].len()
    &&& fits(m[0].len(), m.len())
}

impl Chart {
    /// The invariant of every map.
    pub closed spec fn wf(&self) -> bool {
        &&& self.items.len() == self.height
        &&& self.height > 0
        &&& self.items@[0].len() == self.width
        &&& map_ok(self@)
        &&& forall|x: int, y: int|
            0 <= y < self.height && 0 <= x < self.width ==> (#[trigger] self.items@[y]@[x]).x == x
                && self.items@[y]@[x].y == y
    }

    #[verifier::type_invariant]
    spec fn inv(self) -> bool {
        self.wf()
    }

    /// Number of columns.
    pub fn width(&self) -> (w: usize)
        ensures
            w == self@[0].len(),
            map_ok(self@),
    {
        proof {
            use_type_invariant(self);
        }
        self.width
    }

    /// Number of rows.
    pub fn height(&self) -> (h: usize)
        ensures
            h == self@.len(),
            map_ok(self@),
    {
        proof {
            use_type_invariant(self);
        }
        self.height
    }

    /// What the place `(x, y)` holds, if it lies on the map.
    pub fn get(&self, x: i32, y: i32) -> (r: Option<Item>)
        ensures
            map_ok(self@),
            match r {
                Some(item) => on_map(self@, x as int, y as int) && item == (Item {
                    x,
                    y,
                    thing: self@[y as int][x as int],
                }),
                None => !on_map(self@, x as int, y as int),
            },
    {
        proof {
            use_type_invariant(self);
        }
        if x < 0 || y < 0 || x as usize >= self.width || y as usize >= self.height {
            return None;
        }
        assert(self@[y as int].len() == self@[0].len());
        let item = self.items[y as usize][x as usize];
        Some(item)
    }
}

/// Reads a map from text, one row per line, with the places of the robot
/// and of the end: the last `'S'` and the last `'E'`. There is no map
/// without lines, with lines of unequal length, without an `'S'` or
/// without an `'E'`, or larger than can be searched.
pub fn parse_map(content: &str) -> (r: Option<(Chart, Item, Item)>)
    ensures
        match r {
            Some((map, robot, end)) => {
                let rows = lines_of(content@);
                &&& rows.len() > 0
                &&& rectangular(rows)
                &&& map_ok(map@)
                &&& map@.len() == rows.len()
                &&& forall|y: int| 0 <= y < rows.len() ==> (#[trigger] map@[y]).len() == rows[y].len()
                &&& occurs(rows, 'S')
                &&& occurs(rows, 'E')
                &&& forall|x: int, y: int|
                    0 <= y < rows.len() && 0 <= x < rows[y].len() ==> #[trigger] map@[y][x] == thing_of(
                        rows[y][x],
                    )
                &&& robot.thing == Thing::Robot
                &&& marked(rows, 'S', (robot.y as usize, robot.x as usize))
                &&& robot.x >= 0 && robot.y >= 0
                &&& end.thing == Thing::End
                &&& marked(rows, 'E', (end.y as usize, end.x as usize))
                &&& end.x >= 0 && end.y >= 0
            },
            None => {
                let rows = lines_of(content@);
                rows.len() == 0 || !rectangular(rows) || !fits(rows[0].len(), rows.len()) || !occurs(
                    rows,
                    'S',
                ) || !occurs(rows, 'E')
            },
        },
{
    let text = chars_of(content);
    let lines = split_lines(&text);
    let ghost rows = views(lines@);
    let height = lines.len();
    if height == 0 {
        return None;
    }
    let width = lines[0].len();
    assert(rows[0] == lines@[0]@);
    if width > i32::MAX as usize || height > i32::MAX as usize {
        return None;
    }
    let cells = match width.checked_mul(height) {
        Some(n) => n,
        None => {
            assert(4 * width * height > usize::MAX) by (nonlinear_arith)
                requires
                    width * height > usize::MAX,
            ;
            return None;
        },
    };
    if cells > usize::MAX / 4 {
        assert(4 * width * height > usize::MAX) by (nonlinear_arith)
            requires
                width * height == cells,
                cells > usize::MAX / 4,
        ;
        return None;
    }
    assert(4 * width * height <= usize::MAX) by (nonlinear_arith)
        requires
            width * height == cells,
            cells <= usize::MAX / 4,
    ;
    let mut items: Vec<Vec<Item>> = Vec::new();
    let mut y: usize = 0;
    while y < height
        invariant
            y <= height,
            height == lines.len(),
            rows == views(lines@),
            rows == lines_of(content@),
            width == rows[0].len(),
            width <= i32::MAX,
            height <= i32::MAX,
            items.len() == y,
            forall|k: int| 0 <= k < y ==> (#[trigger] rows[k]).len() == width,
            forall|k: int| 0 <= k < y ==> (#[trigger] items@[k])@.len() == width,
            forall|x2: int, y2: int|
                0 <= y2 < y && 0 <= x2 < width ==> (#[trigger] items@[y2]@[x2]) == (Item {
                    x: x2 as i32,
                    y: y2 as i32,
                    thing: thing_of(rows[y2][x2]),
                }),
        decreases height - y,
    {
        let line = &lines[y];
        assert(rows[y as int] == line@);
        if line.len() != width {
            assert(rows[y as int].len() != rows[0].len());
            return None;
        }
        let mut row: Vec<Item> = Vec::new();
        let mut x: usize = 0;
        while x < width
            invariant
                x <= width,
                line.len() == width,
                width <= i32::MAX,
                y < height,
                height <= i32::MAX,
                rows[y as int] == line@,
                row.len() == x,
                forall|x2: int|
                    0 <= x2 < x ==> (#[trigger] row@[x2]) == (Item {
                        x: x2 as i32,
                        y: y as i32,
                        thing: thing_of(line@[x2]),
                    }),
            decreases width - x,
        {
            let ch = line[x];
            let thing = if ch == '#' {
                Thing::Wall
            } else if ch == 'S' {
                Thing::Robot
            } else if ch == 'E' {
                Thing::End
            } else {
                Thing::Empty
            };
            row.push(Item { x: x as i32, y: y as i32, thing });
            x += 1;
        }
        items.push(row);
        y += 1;
    }
    let s = find_last(&lines, 'S');
    let e = find_last(&lines, 'E');
    proof {
        assert(rectangular(rows));
        if occurs(rows, 'S') {
            assert(holds(rows, 'S', s.1 as int, s.0 as int));
        }
        if occurs(rows, 'E') {
            assert(holds(rows, 'E', e.1 as int, e.0 as int));
        }
    }
    let robot = Item { x: s.1 as i32, y: s.0 as i32, thing: Thing::Robot };
    let has_start = s.0 < height && s.1 < width && lines[s.0][s.1] == 'S';
    let has_end = e.0 < height && e.1 < width && lines[e.0][e.1] == 'E';
    proof {
        assert(rows[e.0 as int] == lines@[e.0 as int]@);
        assert(rows[s.0 as int] == lines@[s.0 as int]@);
        assert(rows[s.0 as int].len() == width);
        assert(rows[e.0 as int].len() == width);
        if has_start {
            assert(holds(rows, 'S', s.1 as int, s.0 as int));
        }
        if has_end {
            assert(holds(rows, 'E', e.1 as int, e.0 as int));
        }
        assert(has_start == occurs(rows, 'S'));
        assert(has_end == occurs(rows, 'E'));
    }
    if !has_start || !has_end {
        return None;
    }
    let end = Item { x: e.1 as i32, y: e.0 as i32, thing: Thing::End };
    proof {
        let m = Seq::new(
            items.len() as nat,
            |y: int| Seq::new(items@[y].len() as nat, |x: int| items@[y]@[x].thing),
        );
        assert(m.len() == height);
        assert forall|y2: int| 0 <= y2 < m.len() implies (#[trigger] m[y2]).len() == m[0].len() by {
            assert(items@[y2]@.len() == width);
            assert(items@[0]@.len() == width);
        }
        assert(map_ok(m));
    }
    let map = Chart { width, height, items };
    proof {
        assert forall|x: int, y: int| 0 <= y < rows.len() && 0 <= x < rows[y].len() implies #[trigger] map@[y][x]
            == thing_of(rows[y][x]) by {
            assert(rows[y].len() == width);
            assert(map.items@[y]@[x].thing == thing_of(rows[y][x]));
        }
        assert forall|y: int| 0 <= y < rows.len() implies (#[trigger] map@[y]).len() == rows[y].len() by {
            assert(rows[y].len() == width);
            assert(map.items@[y]@.len() == width);
        }
    }
    Some((map, robot, end))
}

/// `b` is `a` after one step forward, onto a place that holds no wall.
pub open spec fn is_step(m: Seq<Seq<Thing>>, a: Pose, b: Pose) -> bool {
    &&& b.dir == a.dir
    &&& b.x == a.x + a.dir.dx()
    &&& b.y == a.y + a.dir.dy()
    &&& free(m, b.x as int, b.y as int)
}

/// `b` is `a` after a quarter turn on the spot, to the left or right.
pub open spec fn is_quarter_turn(a: Pose, b: Pose) -> bool {
    &&& b.x == a.x
    &&& b.y == a.y
    &&& (b.dir == a.dir.left() || b.dir == a.dir.right())
}

/// One move leads from `a` to `b`: a step forward or a quarter turn on the
/// spot. A turn is always allowed.
pub open spec fn hop(m: Seq<Seq<Thing>>, a: Pose, b: Pose) -> bool {
    is_step(m, a, b) || is_quarter_turn(a, b)
}

/// What a step costs.
pub const STEP_PRICE: u32 = 1;

/// What a quarter turn costs.
pub const TURN_PRICE: u32 = 1000;

/// What a move costs: 1 for a step, 1000 for a quarter turn.
pub open spec fn hop_price(a: Pose, b: Pose) -> nat {
    if a.dir == b.dir {
        STEP_PRICE as nat
    } else {
        TURN_PRICE as nat
    }
}

/// The way a map is searched: one state for every place and direction.
pub open spec fn coding(m: Seq<Seq<Thing>>) -> Coding<Pose> {
    Coding {
        valid: |p: Pose| on_map(m, p.x as int, p.y as int),
        index: |p: Pose| slot(m[0].len() as int, p.x as int, p.y as int) * 4 + p.dir.number(),
        step: |a: Pose, b: Pose| hop(m, a, b),
        price: |a: Pose, b: Pose| hop_price(a, b),
    }
}

/// The pose one move from `pos` in the direction `d`, if a move leads
/// there.
fn step_to(map: &Chart, pos: (i32, i32), d: Direction) -> (r: Option<(i32, i32)>)
    ensures
        map_ok(map@),
        match r {
            Some(p) => p.0 == pos.0 + d.dx() && p.1 == pos.1 + d.dy() && free(
                map@,
                p.0 as int,
                p.1 as int,
            ),
            None => !free(map@, pos.0 + d.dx(), pos.1 + d.dy()),
        },
{
    let _w = map.width();
    let target: Option<(i32, i32)> = match d {
        Direction::North => if pos.1 == i32::MIN {
            None
        } else {
            Some((pos.0, pos.1 - 1))
        },
        Direction::South => if pos.1 == i32::MAX {
            None
        } else {
            Some((pos.0, pos.1 + 1))
        },
        Direction::East => if pos.0 == i32::MAX {
            None
        } else {
            Some((pos.0 + 1, pos.1))
        },
        Direction::West => if pos.0 == i32::MIN {
            None
        } else {
            Some((pos.0 - 1, pos.1))
        },
    };
    match target {
        None => None,
        Some((x, y)) => match map.get(x, y) {
            Some(item) => match item.thing {
                Thing::Wall => None,
                _ => Some((x, y)),
            },
            None => None,
        },
    }
}

/// Where the moves from a place and direction lead, in the order: the
/// step forward, if the place ahead holds no wall, the turn to the left,
/// the turn to the right.
pub open spec fn neighbors_of(m: Seq<Seq<Thing>>, pos: (i32, i32), dir: Direction) -> Seq<
    ((i32, i32), Direction),
> {
    let ahead = if free(m, pos.0 + dir.dx(), pos.1 + dir.dy()) {
        seq![(((pos.0 + dir.dx()) as i32, (pos.1 + dir.dy()) as i32), dir)]
    } else {
        Seq::empty()
    };
    ahead + seq![(pos, dir.left()), (pos, dir.right())]
}

/// The places and directions that one move leads to. Whether the move is
/// the first makes no difference.
pub fn get_neighbors(pos: (i32, i32), current_dir: Direction, is_first_move: bool, map: &Chart) -> (r:
    Vec<((i32, i32), Direction)>)
    ensures
        r@ == neighbors_of(map@, pos, current_dir),
        forall|b: Pose|
            #[trigger] hop(map@, Pose { x: pos.0, y: pos.1, dir: current_dir }, b) <==> r@.contains(
                ((b.x, b.y), b.dir),
            ),
{
    let mut neighbors: Vec<((i32, i32), Direction)> = Vec::new();
    let left = turn_left(current_dir);
    let right = turn_right(current_dir);
    match step_to(map, pos, current_dir) {
        Some(p) => {
            neighbors.push((p, current_dir));
        },
        None => {},
    }
    let ghost n1 = neighbors@;
    neighbors.push((pos, left));
    neighbors.push((pos, right));
    proof {
        let m = map@;
        let a = Pose { x: pos.0, y: pos.1, dir: current_dir };
        assert(neighbors@ =~= n1 + seq![(pos, left), (pos, right)]);
        let r = neighbors@;
        assert forall|b: Pose| #[trigger] hop(m, a, b) <==> r.contains(((b.x, b.y), b.dir)) by {
            let key = ((b.x, b.y), b.dir);
            if is_step(m, a, b) {
                assert(r[0] == key);
            }
            if is_quarter_turn(a, b) {
                if b.dir == left {
                    assert(r[n1.len() as int] == key);
                } else {
                    assert(r[(n1.len() + 1) as int] == key);
                }
            }
            if r.contains(key) {
                let i = choose|i: int| 0 <= i < r.len() && r[i] == key;
                if i < n1.len() {
                    assert(is_step(m, a, b));
                } else {
                    assert(is_quarter_turn(a, b));
                }
            }
        }
    }
    neighbors
}

/// The number of a direction.
fn number_of(d: Direction) -> (n: usize)
    ensures
        n == d.number(),
{
    match d {
        Direction::North => 0,
        Direction::South => 1,
        Direction::East => 2,
        Direction::West => 3,
    }
}

/// The number of the state at place `(x, y)` facing `d`.
fn index_of(map: &Chart, x: i32, y: i32, d: Direction) -> (i: usize)
    requires
        on_map(map@, x as int, y as int),
    ensures
        map_ok(map@),
        i == (coding(map@).index)(Pose { x, y, dir: d }),
        i < 4 * map@[0].len() * map@.len(),
{
    let w = map.width();
    let h = map.height();
    proof {
        lemma_slot_in_range(w as int, h as int, x as int, y as int);
        assert(4 * (w * h) == 4 * w * h) by (nonlinear_arith);
    }
    (y as usize * w + x as usize) * 4 + number_of(d)
}

/// The numbering of states takes every state to a number of its own.
pub proof fn lemma_index(m: Seq<Seq<Thing>>, a: Pose, b: Pose)
    requires
        map_ok(m),
        on_map(m, a.x as int, a.y as int),
        on_map(m, b.x as int, b.y as int),
    ensures
        0 <= (coding(m).index)(a) < 4 * m[0].len() * m.len(),
        (coding(m).index)(a) == (coding(m).index)(b) ==> a == b,
{
    let w = m[0].len() as int;
    let h = m.len() as int;
    lemma_slot_in_range(w, h, a.x as int, a.y as int);
    lemma_slot_in_range(w, h, b.x as int, b.y as int);
    assert(4 * (w * h) == 4 * w * h) by (nonlinear_arith);
    if (coding(m).index)(a) == (coding(m).index)(b) {
        assert(slot(w, a.x as int, a.y as int) == slot(w, b.x as int, b.y as int));
        lemma_slot_injective(w, a.x as int, a.y as int, b.x as int, b.y as int);
    }
}

/// The `k`-th edge of the node `i` stands for a move.
pub open spec fn edge_is_hop(m: Seq<Seq<Thing>>, g: Seq<Seq<(usize, u32)>>, i: int, k: int) -> bool {
    exists|a: Pose, b: Pose|
        #![trigger hop(m, a, b)]
        on_map(m, a.x as int, a.y as int) && hop(m, a, b) && (coding(m).index)(a) == i && g[i][k] == (
            ((coding(m).index)(b)) as usize,
            hop_price(a, b) as u32,
        )
}

/// Every edge of the graph stands for a move.
pub open spec fn edges_are_hops(m: Seq<Seq<Thing>>, g: Seq<Seq<(usize, u32)>>) -> bool {
    forall|i: int, k: int| 0 <= i < g.len() && 0 <= k < g[i].len() ==> #[trigger] edge_is_hop(m, g, i, k)
}

/// Adds the edge for the move from the state `a` in the direction `nd`, if
/// that is a move.
fn add_hop(g: &mut Graph, map: &Chart, a: Pose, nd: Direction)
    requires
        on_map(map@, a.x as int, a.y as int),
        nd == a.dir || nd == a.dir.left() || nd == a.dir.right(),
        graph_ok(old(g)@),
        old(g)@.len() == 4 * map@[0].len() * map@.len(),
        edges_are_hops(map@, old(g)@),
    ensures
        graph_ok(final(g)@),
        final(g)@.len() == old(g)@.len(),
        edges_are_hops(map@, final(g)@),
        forall|x: int, y: int| arc(old(g)@, x, y) ==> arc(final(g)@, x, y),
        forall|b: Pose|
            hop(map@, a, b) && b.dir == nd ==> arc(
                final(g)@,
                (coding(map@).index)(a),
                (coding(map@).index)(b),
            ),
{
    let ghost m = map@;
    let ghost g0 = g@;
    let target = if a.dir == nd {
        step_to(map, (a.x, a.y), nd)
    } else {
        Some((a.x, a.y))
    };
    match target {
        None => {},
        Some(p) => {
            let b = Pose { x: p.0, y: p.1, dir: nd };
            let i = index_of(map, a.x, a.y, a.dir);
            let j = index_of(map, b.x, b.y, b.dir);
            let w: u32 = if a.dir == nd {
                STEP_PRICE
            } else {
                TURN_PRICE
            };
            proof {
                assert(hop(m, a, b));
                if arc(g0, i as int, j as int) {
                    let k = choose|k: int| 0 <= k < g0[i as int].len() && (#[trigger] g0[i as int][k]).0
                        == j;
                    lemma_edge(g0, i as int, k);
                    assert(edge_is_hop(m, g0, i as int, k));
                    let (a2, b2) = choose|a2: Pose, b2: Pose|
                        #![trigger hop(m, a2, b2)]
                        on_map(m, a2.x as int, a2.y as int) && hop(m, a2, b2) && (coding(m).index)(a2)
                            == i && g0[i as int][k] == (
                            ((coding(m).index)(b2)) as usize,
                            hop_price(a2, b2) as u32,
                        );
                    lemma_index(m, a, a2);
                    lemma_index(m, b2, b2);
                    lemma_index(m, b, b2);
                }
            }
            g.add_edge(i, j, w);
            proof {
                let g1 = g@;
                assert forall|x: int, y: int| arc(g0, x, y) implies arc(g1, x, y) by {
                    let k = choose|k: int| 0 <= k < g0[x].len() && (#[trigger] g0[x][k]).0 == y;
                    assert(g1[x][k].0 == y);
                }
                assert(arc(g1, i as int, j as int)) by {
                    let k = g0[i as int].len() as int;
                    assert(g1[i as int][k].0 == j);
                }
                assert forall|x: int, k: int|
                    0 <= x < g1.len() && 0 <= k < g1[x].len() implies #[trigger] edge_is_hop(m, g1, x, k) by {
                    if x == i && k == g0[i as int].len() {
                        lemma_index(m, b, b);
                        assert(hop(m, a, b) && g1[x][k] == (
                            ((coding(m).index)(b)) as usize,
                            hop_price(a, b) as u32,
                        ));
                    } else {
                        assert(g0[x][k] == g1[x][k]);
                        assert(edge_is_hop(m, g0, x, k));
                        let (a2, b2) = choose|a2: Pose, b2: Pose|
                            #![trigger hop(m, a2, b2)]
                            on_map(m, a2.x as int, a2.y as int) && hop(m, a2, b2) && (coding(
                                m,
                            ).index)(a2) == x && g0[x][k] == (
                                ((coding(m).index)(b2)) as usize,
                                hop_price(a2, b2) as u32,
                            );
                        assert(hop(m, a2, b2));
                    }
                }
            }
        },
    }
}

/// The graph of all moves on a map.
fn hop_graph(map: &Chart) -> (g: Graph)
    ensures
        map_ok(map@),
        coding(map@).codes(g@),
        g@.len() == 4 * map@[0].len() * map@.len(),
{
    let w = map.width();
    let h = map.height();
    let ghost m = map@;
    proof {
        assert(4 * (w * h) == 4 * w * h) by (nonlinear_arith);
    }
    let mut g = Graph::new(4 * (w * h));
    let dirs = [Direction::North, Direction::South, Direction::East, Direction::West];
    let mut y: usize = 0;
    while y < h
        invariant
            y <= h,
            w == m[0].len(),
            h == m.len(),
            m == map@,
            map_ok(m),
            dirs@ == seq![Direction::North, Direction::South, Direction::East, Direction::West],
            graph_ok(g@),
            g@.len() == 4 * m[0].len() * m.len(),
            edges_are_hops(m, g@),
            forall|a: Pose, b: Pose|
                on_map(m, a.x as int, a.y as int) && a.y < y && #[trigger] hop(m, a, b) ==> arc(
                    g@,
                    (coding(m).index)(a),
                    (coding(m).index)(b),
                ),
        decreases h - y,
    {
        let mut x: usize = 0;
        while x < w
            invariant
                x <= w,
                y < h,
                w == m[0].len(),
                h == m.len(),
                m == map@,
                map_ok(m),
                dirs@ == seq![Direction::North, Direction::South, Direction::East, Direction::West],
                graph_ok(g@),
                g@.len() == 4 * m[0].len() * m.len(),
                edges_are_hops(m, g@),
                forall|a: Pose, b: Pose|
                    on_map(m, a.x as int, a.y as int) && (a.y < y || (a.y == y && a.x < x))
                        && #[trigger] hop(m, a, b) ==> arc(
                        g@,
                        (coding(m).index)(a),
                        (coding(m).index)(b),
                    ),
            decreases w - x,
        {
            let mut k: usize = 0;
            while k < 4
                invariant
                    k <= 4,
                    x < w,
                    y < h,
                    w == m[0].len(),
                    h == m.len(),
                    m == map@,
                    map_ok(m),
                    dirs@ == seq![Direction::North, Direction::South, Direction::East, Direction::West],
                    graph_ok(g@),
                    g@.len() == 4 * m[0].len() * m.len(),
                    edges_are_hops(m, g@),
                    forall|a: Pose, b: Pose|
                        on_map(m, a.x as int, a.y as int) && (a.y < y || (a.y == y && a.x < x) || (
                        a.y == y && a.x == x && a.dir.number() < k)) && #[trigger] hop(m, a, b)
                            ==> arc(g@, (coding(m).index)(a), (coding(m).index)(b)),
                decreases 4 - k,
            {
                let d = dirs[k];
                let a = Pose { x: x as i32, y: y as i32, dir: d };
                add_hop(&mut g, map, a, d);
                add_hop(&mut g, map, a, turn_left(d));
                add_hop(&mut g, map, a, turn_right(d));
                proof {
                    assert(d.number() == k);
                    assert forall|a2: Pose, b: Pose|
                        on_map(m, a2.x as int, a2.y as int) && (a2.y < y || (a2.y == y && a2.x < x)
                            || (a2.y == y && a2.x == x && a2.dir.number() < k + 1)) && #[trigger] hop(
                            m,
                            a2,
                            b,
                        ) implies arc(g@, (coding(m).index)(a2), (coding(m).index)(b)) by {
                        if a2.y == y && a2.x == x && a2.dir.number() == k {
                            assert(a2 == a);
                        }
                    }
                }
                k += 1;
            }
            x += 1;
        }
        y += 1;
    }
    proof {
        let c = coding(m);
        assert forall|a: Pose| #[trigger] (c.valid)(a) implies 0 <= (c.index)(a) < g@.len() by {
            lemma_index(m, a, a);
        }
        assert forall|a: Pose, b: Pose|
            (c.valid)(a) && (c.valid)(b) && #[trigger] (c.index)(a) == #[trigger] (c.index)(
                b,
            ) implies a == b by {
            lemma_index(m, a, b);
        }
        assert forall|a: Pose, j: int| (c.valid)(a) && #[trigger] arc(g@, (c.index)(a), j) implies exists|
            b: Pose,
        | #[trigger] (c.step)(a, b) && (c.index)(b) == j by {
            let i = (c.index)(a);
            let k = choose|k: int| 0 <= k < g@[i].len() && (#[trigger] g@[i][k]).0 == j;
            lemma_edge(g@, i, k);
            assert(edge_is_hop(m, g@, i, k));
            let (a2, b2) = choose|a2: Pose, b2: Pose|
                #![trigger hop(m, a2, b2)]
                on_map(m, a2.x as int, a2.y as int) && hop(m, a2, b2) && (c.index)(a2) == i
                    && g@[i][k] == (((c.index)(b2)) as usize, hop_price(a2, b2) as u32);
            lemma_index(m, a, a2);
            lemma_index(m, b2, b2);
            assert((c.step)(a, b2));
        }
        assert forall|a: Pose, b: Pose| (c.valid)(a) && #[trigger] (c.step)(a, b) implies (c.valid)(b)
            && arc(g@, (c.index)(a), (c.index)(b)) && toll(g@, (c.index)(a), (c.index)(b)) == (
        c.price)(a, b) by {
            assert(hop(m, a, b));
            let i = (c.index)(a);
            let j = (c.index)(b);
            assert(arc(g@, i, j));
            let k = choose|k: int| 0 <= k < g@[i].len() && (#[trigger] g@[i][k]).0 == j;
            lemma_edge(g@, i, k);
            assert(edge_is_hop(m, g@, i, k));
            let (a2, b2) = choose|a2: Pose, b2: Pose|
                #![trigger hop(m, a2, b2)]
                on_map(m, a2.x as int, a2.y as int) && hop(m, a2, b2) && (c.index)(a2) == i
                    && g@[i][k] == (((c.index)(b2)) as usize, hop_price(a2, b2) as u32);
            lemma_index(m, a, a2);
            lemma_index(m, b, b2);
        }
    }
    g
}


/// Where a search begins: on the place of the robot, facing east.
pub open spec fn origin(start: Item) -> Pose {
    Pose { x: start.x, y: start.y, dir: Direction::East }
}

/// `r` is a run from `start` to the place `end`, in any direction, and no
/// run between them is cheaper.
pub open spec fn cheapest_run(m: Seq<Seq<Thing>>, start: Pose, end: (i32, i32), r: Seq<Pose>) -> bool {
    &&& coding(m).is_run(r)
    &&& r[0] == start
    &&& (r.last().x, r.last().y) == end
    &&& forall|q: Seq<Pose>|
        #[trigger] coding(m).is_run(q) && q[0] == start && (q.last().x, q.last().y) == end
            ==> coding(m).run_cost(r) <= coding(m).run_cost(q)
}

/// No run leads from `start` to the place `end`.
pub open spec fn no_way(m: Seq<Seq<Thing>>, start: Pose, end: (i32, i32)) -> bool {
    forall|q: Seq<Pose>|
        !(#[trigger] coding(m).is_run(q) && q[0] == start && (q.last().x, q.last().y) == end)
}

/// The place of the state with the number `n`.
fn decode(map: &Chart, n: usize, Ghost(p): Ghost<Pose>) -> (r: (i32, i32))
    requires
        on_map(map@, p.x as int, p.y as int),
        n == (coding(map@).index)(p),
    ensures
        r == (p.x, p.y),
{
    let w = map.width();
    let h = map.height();
    proof {
        lemma_slot_in_range(w as int, h as int, p.x as int, p.y as int);
        let cell = slot(w as int, p.x as int, p.y as int);
        vstd::arithmetic::div_mod::lemma_fundamental_div_mod_converse(
            n as int,
            4,
            cell,
            p.dir.number(),
        );
        vstd::arithmetic::div_mod::lemma_fundamental_div_mod_converse(
            cell,
            w as int,
            p.y as int,
            p.x as int,
        );
    }
    let cell = n / 4;
    ((cell % w) as i32, (cell / w) as i32)
}

/// Every pose of a run stands on the map.
pub proof fn lemma_run_on_map(m: Seq<Seq<Thing>>, q: Seq<Pose>, i: int)
    requires
        coding(m).is_run(q),
        0 <= i < q.len(),
    ensures
        on_map(m, q[i].x as int, q[i].y as int),
    decreases i,
{
    let c = coding(m);
    assert((c.valid)(q[0]));
    if i > 0 {
        lemma_run_on_map(m, q, i - 1);
        assert((c.step)(q[i - 1], q[i]));
        assert(hop(m, q[i - 1], q[i]));
    }
}

/// A run costs at least 1 for each of its moves.
pub proof fn lemma_run_cost_len(m: Seq<Seq<Thing>>, q: Seq<Pose>)
    requires
        q.len() > 0,
    ensures
        coding(m).run_cost(q) >= q.len() - 1,
    decreases q.len(),
{
    if q.len() > 1 {
        lemma_run_cost_len(m, q.drop_last());
    }
}

/// The places that the first `n` poses of a run pass, in order, each
/// named once for as long as the run stays on it.
pub open spec fn cells(r: Seq<Pose>, n: int) -> Seq<(i32, i32)>
    decreases n,
{
    if n <= 0 {
        Seq::empty()
    } else if n >= 2 && r[n - 1].x == r[n - 2].x && r[n - 1].y == r[n - 2].y {
        cells(r, n - 1)
    } else {
        cells(r, n - 1).push((r[n - 1].x, r[n - 1].y))
    }
}

/// The heading that a direction is.
pub open spec fn as_heading(d: Direction) -> crate::maze::heading::Direction {
    match d {
        Direction::North => crate::maze::heading::Direction::North,
        Direction::South => crate::maze::heading::Direction::South,
        Direction::East => crate::maze::heading::Direction::East,
        Direction::West => crate::maze::heading::Direction::West,
    }
}

/// The direction that a heading is.
pub open spec fn as_direction(d: crate::maze::heading::Direction) -> Direction {
    match d {
        crate::maze::heading::Direction::North => Direction::North,
        crate::maze::heading::Direction::South => Direction::South,
        crate::maze::heading::Direction::East => Direction::East,
        crate::maze::heading::Direction::West => Direction::West,
    }
}

/// The robot's pose as the pose of a walker in a maze.
pub open spec fn as_walker(p: Pose) -> crate::maze::route::Pose {
    crate::maze::route::Pose { x: p.x as usize, y: p.y as usize, dir: as_heading(p.dir) }
}

/// The pose of a walker in a maze as the robot's pose.
pub open spec fn as_robot(p: crate::maze::route::Pose) -> Pose {
    Pose { x: p.x as i32, y: p.y as i32, dir: as_direction(p.dir) }
}

/// The poses of a run as the poses of a walker.
pub open spec fn as_route(q: Seq<Pose>) -> Seq<crate::maze::route::Pose> {
    q.map_values(|p: Pose| as_walker(p))
}

/// The poses of a walker as the poses of a run.
pub open spec fn as_run(r: Seq<crate::maze::route::Pose>) -> Seq<Pose> {
    r.map_values(|p: crate::maze::route::Pose| as_robot(p))
}

/// The map as a maze: what holds a wall is a wall, every other place is
/// open; the walker starts on the place of the robot.
pub open spec fn as_maze(m: Seq<Seq<Thing>>, start: Item, end: Item) -> Maze {
    Maze {
        cells: Seq::new(
            m.len(),
            |y: int|
                Seq::new(
                    m[y].len(),
                    |x: int|
                        if m[y][x] == Thing::Wall {
                            Cell::Wall
                        } else {
                            Cell::Open
                        },
                ),
        ),
        start: (start.x as usize, start.y as usize),
        end: (end.x as usize, end.y as usize),
    }
}

/// What the moves of a walker cost: 1 a step, 1000 a quarter turn.
pub open spec fn prices() -> CostModel {
    CostModel { step: STEP_PRICE, turn: TURN_PRICE }
}

/// A place of the map holds no wall exactly if the cell of the maze is
/// open.
pub proof fn lemma_free_is_open(m: Seq<Seq<Thing>>, start: Item, end: Item, x: int, y: int)
    requires
        map_ok(m),
    ensures
        free(m, x, y) <==> as_maze(m, start, end).open(x, y),
{
    let g = as_maze(m, start, end);
    assert(g.cells.len() == m.len());
    assert(g.cells[0].len() == m[0].len());
    if 0 <= y < m.len() {
        assert(m[y].len() == m[0].len());
        assert(g.cells[y].len() == m[y].len());
    }
}

/// The moves of the robot are the moves of a walker in the maze, at the
/// same cost.
pub proof fn lemma_hop_is_move(m: Seq<Seq<Thing>>, start: Item, end: Item, a: Pose, b: Pose)
    requires
        map_ok(m),
        on_map(m, a.x as int, a.y as int),
        b.x >= 0,
        b.y >= 0,
    ensures
        hop(m, a, b) <==> is_move(as_maze(m, start, end), as_walker(a), as_walker(b)),
        hop_price(a, b) == move_cost(prices(), as_walker(a), as_walker(b)),
{
    lemma_free_is_open(m, start, end, b.x as int, b.y as int);
}

/// A run of the robot is a route of a walker in the maze, at the same
/// cost.
pub proof fn lemma_run_is_route(m: Seq<Seq<Thing>>, start: Item, end: Item, q: Seq<Pose>)
    requires
        map_ok(m),
        coding(m).is_run(q),
        free(m, q[0].x as int, q[0].y as int),
    ensures
        is_route(as_maze(m, start, end), as_route(q)),
        route_cost(prices(), as_route(q)) == coding(m).run_cost(q),
    decreases q.len(),
{
    let g = as_maze(m, start, end);
    let c = coding(m);
    let r = as_route(q);
    lemma_free_is_open(m, start, end, q[0].x as int, q[0].y as int);
    assert forall|i: int| 0 <= i < r.len() - 1 implies is_move(g, #[trigger] r[i], r[i + 1]) by {
        lemma_run_on_map(m, q, i);
        lemma_run_on_map(m, q, i + 1);
        assert((c.step)(q[i], q[i + 1]));
        lemma_hop_is_move(m, start, end, q[i], q[i + 1]);
    }
    if q.len() > 1 {
        let n = q.len() - 1;
        let front = q.drop_last();
        assert(c.is_run(front)) by {
            assert forall|i: int| 0 <= i < front.len() - 1 implies (c.step)(#[trigger] front[i], front[i + 1]) by {
                assert((c.step)(q[i], q[i + 1]));
            }
        }
        lemma_run_is_route(m, start, end, front);
        assert(as_route(front) =~= r.drop_last());
        lemma_run_on_map(m, q, n - 1);
        lemma_run_on_map(m, q, n);
        lemma_hop_is_move(m, start, end, q[n - 1], q[n]);
    }
}

/// A route of a walker in the maze is a run of the robot, at the same
/// cost.
pub proof fn lemma_route_is_run(m: Seq<Seq<Thing>>, start: Item, end: Item, r: Seq<crate::maze::route::Pose>)
    requires
        map_ok(m),
        is_route(as_maze(m, start, end), r),
    ensures
        coding(m).is_run(as_run(r)),
        coding(m).run_cost(as_run(r)) == route_cost(
            prices(),
            r,
        ),
        forall|i: int| 0 <= i < r.len() ==> as_walker(as_run(r)[i]) == #[trigger] r[i],
    decreases r.len(),
{
    let g = as_maze(m, start, end);
    let c = coding(m);
    let q = as_run(r);
    assert forall|i: int| 0 <= i < r.len() implies on_map(m, q[i].x as int, q[i].y as int) && as_walker(
        #[trigger] q[i],
    ) == r[i] by {
        crate::maze::route::lemma_route_open(g, r, i);
        lemma_free_is_open(m, start, end, r[i].x as int, r[i].y as int);
    }
    assert forall|i: int| 0 <= i < q.len() - 1 implies (c.step)(#[trigger] q[i], q[i + 1]) by {
        assert(is_move(g, r[i], r[i + 1]));
        assert(as_walker(q[i]) == r[i] && as_walker(q[i + 1]) == r[i + 1]);
        lemma_hop_is_move(m, start, end, q[i], q[i + 1]);
    }
    assert((c.valid)(q[0]));
    if r.len() > 1 {
        let n = r.len() - 1;
        let front = r.drop_last();
        assert(is_route(g, front)) by {
            assert forall|i: int| 0 <= i < front.len() - 1 implies is_move(g, #[trigger] front[i], front[i + 1]) by {
                assert(is_move(g, r[i], r[i + 1]));
            }
        }
        lemma_route_is_run(m, start, end, front);
        assert(as_run(front) =~= q.drop_last());
        assert(as_walker(q[n - 1]) == r[n - 1] && as_walker(q[n]) == r[n]);
        lemma_hop_is_move(m, start, end, q[n - 1], q[n]);
    }
}

/// The least cost of a run of the robot from the start, facing east, to
/// the end is the least cost of a route of a walker in the maze.
pub proof fn lemma_cheapest_is_least(m: Seq<Seq<Thing>>, start: Item, end: Item, run: Seq<Pose>)
    requires
        map_ok(m),
        free(m, start.x as int, start.y as int),
        on_map(m, end.x as int, end.y as int),
        cheapest_run(m, origin(start), (end.x, end.y), run),
    ensures
        is_min_cost(as_maze(m, start, end), prices(), coding(m).run_cost(run)),
{
    let g = as_maze(m, start, end);
    let c = coding(m);
    let r = as_route(run);
    lemma_run_is_route(m, start, end, run);
    assert(r[0] == crate::maze::route::origin(g));
    assert(crate::maze::route::is_finish(g, r));
    assert forall|p: Seq<crate::maze::route::Pose>| #[trigger]
        crate::maze::route::is_finish(g, p) implies c.run_cost(run) <= route_cost(prices(), p) by {
        lemma_route_is_run(m, start, end, p);
        let q = as_run(p);
        assert(as_walker(q[0]) == p[0]);
        assert(as_walker(q[q.len() - 1]) == p[p.len() - 1]);
        lemma_run_on_map(m, q, 0);
        lemma_run_on_map(m, q, q.len() - 1);
        assert(q[0] == origin(start));
        assert((q.last().x, q.last().y) == (end.x, end.y));
    }
}

/// Where no run of the robot leads to the end, no route of a walker in
/// the maze does.
pub proof fn lemma_no_way_no_route(m: Seq<Seq<Thing>>, start: Item, end: Item)
    requires
        map_ok(m),
        on_map(m, start.x as int, start.y as int),
        on_map(m, end.x as int, end.y as int),
        no_way(m, origin(start), (end.x, end.y)),
    ensures
        crate::maze::route::no_route(as_maze(m, start, end)),
{
    let g = as_maze(m, start, end);
    assert forall|p: Seq<crate::maze::route::Pose>| !#[trigger] crate::maze::route::is_finish(g, p) by {
        if crate::maze::route::is_finish(g, p) {
            lemma_route_is_run(m, start, end, p);
            let q = as_run(p);
            assert(as_walker(q[0]) == p[0]);
            assert(as_walker(q[q.len() - 1]) == p[p.len() - 1]);
            lemma_run_on_map(m, q, 0);
            lemma_run_on_map(m, q, q.len() - 1);
            assert(q[0] == origin(start));
            assert((q.last().x, q.last().y) == (end.x, end.y));
        }
    }
}

/// The number of the cheapest state on the end, and its cost: the least
/// cost of any run from the start to the end in any direction.
fn cheapest_end(map: &Chart, g: &Graph, found: &crate::graph::Expansion, start: Item, end: Item) -> (best:
    Option<(u128, usize)>)
    requires
        coding(map@).codes(g@),
        g@.len() == 4 * map@[0].len() * map@.len(),
        on_map(map@, start.x as int, start.y as int),
        on_map(map@, end.x as int, end.y as int),
        found.complete(g@, (coding(map@).index)(origin(start)) as usize),
        found.source() == (coding(map@).index)(origin(start)),
    ensures
        match best {
            Some((d, t)) => (exists|dir: Direction|
                #![trigger dir.number()]
                t == (coding(map@).index)(Pose { x: end.x, y: end.y, dir }) && is_least(
                    g@,
                    found.source(),
                    t,
                    d as nat,
                )) && forall|dir: Direction, q: Seq<Pose>| #[trigger]
                coding(map@).is_run_to(origin(start), q, Pose { x: end.x, y: end.y, dir }) ==> d
                    <= coding(map@).run_cost(q),
            None => forall|dir: Direction| #[trigger]
                coding(map@).no_run(origin(start), Pose { x: end.x, y: end.y, dir }),
        },
{
    let ghost m = map@;
    let ghost c = coding(m);
    let ghost o = origin(start);
    let _w = map.width();
    let s = index_of(map, start.x, start.y, Direction::East);
    let dirs = [Direction::North, Direction::South, Direction::East, Direction::West];
    let mut best: Option<(u128, usize)> = None;
    let mut k: usize = 0;
    while k < 4
        invariant
            k <= 4,
            m == map@,
            c == coding(m),
            o == origin(start),
            map_ok(m),
            c.codes(g@),
            g@.len() == 4 * m[0].len() * m.len(),
            on_map(m, start.x as int, start.y as int),
            on_map(m, end.x as int, end.y as int),
            s == (c.index)(o),
            found.complete(g@, s),
            found.source() == s,
            dirs@ == seq![Direction::North, Direction::South, Direction::East, Direction::West],
            match best {
                Some((d, t)) => exists|dir: Direction|
                    #![trigger dir.number()]
                    t == (c.index)(Pose { x: end.x, y: end.y, dir }) && is_least(g@, s, t, d as nat),
                None => true,
            },
            forall|dir: Direction|
                #![trigger dir.number()]
                dir.number() < k ==> match best {
                    Some((d, _)) => forall|q: Seq<Pose>| #[trigger]
                        c.is_run_to(o, q, Pose { x: end.x, y: end.y, dir }) ==> d <= c.run_cost(q),
                    None => c.no_run(o, Pose { x: end.x, y: end.y, dir }),
                },
        decreases 4 - k,
    {
        let dir = dirs[k];
        let ghost e = Pose { x: end.x, y: end.y, dir };
        let t = index_of(map, end.x, end.y, dir);
        let ghost before = best;
        match found.distance(g, t) {
            Some(d) => {
                proof {
                    c.lemma_least(g@, o, e, d as nat);
                }
                let better = match best {
                    Some((b, _)) => d < b,
                    None => true,
                };
                if better {
                    best = Some((d, t));
                    proof {
                        assert(t == (c.index)(Pose { x: end.x, y: end.y, dir }) && is_least(
                            g@,
                            s,
                            t,
                            d as nat,
                        ));
                    }
                }
            },
            None => {
                proof {
                    c.lemma_cut_off(g@, o, e);
                }
            },
        }
        proof {
            assert(dir.number() == k);
            assert forall|d2: Direction|
                #![trigger d2.number()]
                d2.number() < k + 1 implies match best {
                Some((d, _)) => forall|q: Seq<Pose>| #[trigger]
                    c.is_run_to(o, q, Pose { x: end.x, y: end.y, dir: d2 }) ==> d <= c.run_cost(q),
                None => c.no_run(o, Pose { x: end.x, y: end.y, dir: d2 }),
            } by {
                if d2.number() < k {
                    match before {
                        Some((b, _)) => {},
                        None => {},
                    }
                } else {
                    assert(d2 == dir);
                }
            }
        }
        k += 1;
    }
    proof {
        match best {
            Some((d, _)) => {
                assert forall|dir: Direction, q: Seq<Pose>| #[trigger]
                    c.is_run_to(o, q, Pose { x: end.x, y: end.y, dir }) implies d <= c.run_cost(q) by {
                    assert(dir.number() < 4);
                }
            },
            None => {
                assert forall|dir: Direction| #[trigger]
                    c.no_run(o, Pose { x: end.x, y: end.y, dir }) by {
                    assert(dir.number() < 4);
                }
            },
        }
    }
    best
}

/// The places that a walk through the graph of a map passes, each named
/// once for as long as the walk stays on it.
fn places_of(map: &Chart, walk: &Vec<usize>, Ghost(run): Ghost<Seq<Pose>>) -> (path: Vec<(i32, i32)>)
    requires
        run.len() == walk.len(),
        forall|j: int|
            0 <= j < walk@.len() ==> walk@[j] == (coding(map@).index)(#[trigger] run[j]) && on_map(
                map@,
                run[j].x as int,
                run[j].y as int,
            ),
    ensures
        path@ == cells(run, run.len() as int),
{
    let mut path: Vec<(i32, i32)> = Vec::new();
    let mut last: (i32, i32) = (0, 0);
    let mut i: usize = 0;
    while i < walk.len()
        invariant
            i <= walk.len(),
            run.len() == walk.len(),
            forall|j: int|
                0 <= j < walk@.len() ==> walk@[j] == (coding(map@).index)(#[trigger] run[j]) && on_map(
                    map@,
                    run[j].x as int,
                    run[j].y as int,
                ),
            path@ == cells(run, i as int),
            i > 0 ==> last == (run[i - 1].x, run[i - 1].y),
        decreases walk.len() - i,
    {
        let ghost p = run[i as int];
        assert(walk@[i as int] == (coding(map@).index)(run[i as int]));
        let place = decode(map, walk[i], Ghost(p));
        if i == 0 || place.0 != last.0 || place.1 != last.1 {
            path.push(place);
        }
        last = place;
        i += 1;
    }
    path
}

/// A cheapest way from the place of the robot, facing east, to the end in
/// any direction, where a step forward costs 1 and a quarter turn on the
/// spot 1000: its cost, and the places it passes. There is none where the
/// robot stands off the map or no run leads to the end. The moves are
/// those of a walker in the maze that the map is: where the robot starts
/// on a place without a wall, the cost is the least cost of a route from
/// the start to the end of that maze, and the way is such a route.
pub fn find_path(map: &Chart, start: Item, end: Item) -> (r: Option<(u128, Vec<(i32, i32)>)>)
    ensures
        match r {
            Some((cost, path)) => exists|run: Seq<Pose>|
                #![trigger coding(map@).run_cost(run)]
                cheapest_run(map@, origin(start), (end.x, end.y), run) && cost == coding(
                    map@,
                ).run_cost(run) && path@ == cells(run, run.len() as int) && (free(
                    map@,
                    start.x as int,
                    start.y as int,
                ) ==> crate::maze::route::is_finish(as_maze(map@, start, end), as_route(run))
                    && route_cost(prices(), as_route(run)) == cost),
            None => !on_map(map@, start.x as int, start.y as int) || no_way(
                map@,
                origin(start),
                (end.x, end.y),
            ),
        },
        free(map@, start.x as int, start.y as int) && on_map(map@, end.x as int, end.y as int)
            ==> match r {
            Some((cost, _)) => is_min_cost(as_maze(map@, start, end), prices(), cost as nat),
            None => crate::maze::route::no_route(as_maze(map@, start, end)),
        },
        on_map(map@, start.x as int, start.y as int) && start.x == end.x && start.y == end.y ==> r
            is Some && r.unwrap().0 == 0 && r.unwrap().1@ == seq![(start.x, start.y)],
{
    let ghost m = map@;
    let ghost c = coding(m);
    let ghost o = origin(start);
    if map.get(start.x, start.y).is_none() {
        return None;
    }
    if map.get(end.x, end.y).is_none() {
        proof {
            assert forall|q: Seq<Pose>|
                !(#[trigger] c.is_run(q) && q[0] == o && (q.last().x, q.last().y) == (
                    end.x,
                    end.y,
                )) by {
                if c.is_run(q) {
                    lemma_run_on_map(m, q, q.len() - 1);
                }
            }
        }
        return None;
    }
    let g = hop_graph(map);
    let s = index_of(map, start.x, start.y, Direction::East);
    let found = shortest_paths(&g, s);
    let (cost, t) = match cheapest_end(map, &g, &found, start, end) {
        Some(b) => b,
        None => {
            proof {
                assert forall|q: Seq<Pose>|
                    !(#[trigger] c.is_run(q) && q[0] == o && (q.last().x, q.last().y) == (
                        end.x,
                        end.y,
                    )) by {
                    if c.is_run(q) && q[0] == o && (q.last().x, q.last().y) == (end.x, end.y) {
                        let dir = q.last().dir;
                        assert(c.no_run(o, Pose { x: end.x, y: end.y, dir }));
                        assert(c.is_run_to(o, q, Pose { x: end.x, y: end.y, dir }));
                    }
                }
            }
            proof {
                lemma_no_way_no_route(m, start, end);
                if start.x == end.x && start.y == end.y {
                    let alone = seq![o];
                    assert(c.is_run(alone) && alone[0] == o && (alone.last().x, alone.last().y) == (
                        end.x,
                        end.y,
                    ));
                }
            }
            return None;
        },
    };
    let walk = match found.path_to(&g, t) {
        Some(w) => w,
        None => {
            proof {
                let w = choose|w: Seq<usize>| #[trigger]
                    is_walk_to(g@, s, w, t) && walk_cost(g@, w) == cost as nat;
                assert(is_walk_to(g@, s, w, t));
            }
            return None;
        },
    };
    let ghost run = c.lemma_walk_run(g@, walk@, o);
    proof {
        lemma_least_unique(g@, s, t, cost as nat, walk_cost(g@, walk@));
        assert forall|j: int| 0 <= j < walk@.len() implies walk@[j] == (c.index)(#[trigger] run[j])
            && on_map(m, run[j].x as int, run[j].y as int) by {
            assert((c.valid)(run[j]));
        }
    }
    let path = places_of(map, &walk, Ghost(run));
    proof {
        let e = run.last();
        assert(walk@[walk.len() - 1] == (c.index)(run[walk.len() - 1]));
        let dir0 = choose|dir: Direction|
            #![trigger dir.number()]
            t == (c.index)(Pose { x: end.x, y: end.y, dir }) && is_least(g@, s, t, cost as nat);
        lemma_index(m, e, Pose { x: end.x, y: end.y, dir: dir0 });
        assert forall|q: Seq<Pose>|
            #[trigger] c.is_run(q) && q[0] == o && (q.last().x, q.last().y) == (
                end.x,
                end.y,
            ) implies c.run_cost(run) <= c.run_cost(q) by {
            let dir = q.last().dir;
            assert(c.is_run_to(o, q, Pose { x: end.x, y: end.y, dir }));
        }
        assert(cheapest_run(m, o, (end.x, end.y), run));
        if free(m, start.x as int, start.y as int) {
            lemma_cheapest_is_least(m, start, end, run);
            lemma_run_is_route(m, start, end, run);
            assert(as_route(run)[0] == crate::maze::route::origin(as_maze(m, start, end)));
            assert(crate::maze::route::is_finish(as_maze(m, start, end), as_route(run)));
        }
        if start.x == end.x && start.y == end.y {
            let alone = seq![o];
            assert(c.is_run(alone));
            assert(c.run_cost(alone) == 0);
            lemma_run_cost_len(m, run);
            assert(run.len() == 1);
            assert(run[0] == o);
            assert(cells(run, 0) =~= Seq::<(i32, i32)>::empty());
            assert(cells(run, 1) =~= seq![(start.x, start.y)]);
        }
    }
    Some((cost, path))
}

} // verus!
