//! What holds of every maze: the answers are unique, the tiles counted are
//! those of the cheapest routes, and straight corridors cost what their
//! length and the turns before them cost.

use vstd::prelude::*;
use crate::maze::grid::Maze;
use crate::maze::heading::Direction;
use crate::maze::route::{
    best_tiles, is_best, is_finish, is_forward, is_min_cost, is_move, is_route, is_route_to,
    is_turn, lemma_cost_push, lemma_prefix, lemma_route_push, move_cost, origin, pose_at,
    pose_on_best, route_cost, tile_on_best, CostModel, Pose,
};
use crate::maze::solve::answers;

verus! {

/// A maze has at most one least cost.
pub proof fn lemma_min_cost_unique(m: Maze, c: CostModel, a: nat, b: nat)
    requires
        is_min_cost(m, c, a),
        is_min_cost(m, c, b),
    ensures
        a == b,
{
    let p = choose|p: Seq<Pose>| #[trigger] is_finish(m, p) && route_cost(c, p) == a;
    let q = choose|q: Seq<Pose>| #[trigger] is_finish(m, q) && route_cost(c, q) == b;
    assert(is_finish(m, p));
    assert(is_finish(m, q));
}

/// Asking the same question of the same maze twice gives the same answer:
/// the least cost is one number, and so is the number of tiles on the
/// cheapest routes.
pub proof fn lemma_answers_unique(m: Maze, c: CostModel, part_two: bool, a: nat, b: nat)
    requires
        answers(m, c, part_two, a),
        answers(m, c, part_two, b),
    ensures
        a == b,
{
    if part_two {
        let d1 = choose|d: nat| #[trigger] is_min_cost(m, c, d) && a == best_tiles(m, c, d).len();
        let d2 = choose|d: nat| #[trigger] is_min_cost(m, c, d) && b == best_tiles(m, c, d).len();
        lemma_min_cost_unique(m, c, d1, d2);
    } else {
        lemma_min_cost_unique(m, c, a, b);
    }
}

/// The tile lies on a route from the start to the end cell that costs
/// exactly `d`.
pub open spec fn tile_on_route_costing(m: Maze, c: CostModel, d: nat, tile: (usize, usize)) -> bool {
    exists|p: Seq<Pose>, i: int|
        #![trigger is_finish(m, p), p[i]]
        is_finish(m, p) && route_cost(c, p) == d && 0 <= i < p.len() && p[i].tile() == tile
}

/// With the least cost as the limit, every route whose tiles are counted
/// costs exactly the least cost, every route to the end of that cost is
/// counted, and so the tiles counted are those of all cheapest routes.
pub proof fn lemma_tiles_of_cheapest(m: Maze, c: CostModel, d: nat)
    requires
        is_min_cost(m, c, d),
    ensures
        forall|p: Seq<Pose>| #[trigger]
            is_best(m, c, p) && p.last().on(m.end) && route_cost(c, p) <= d ==> route_cost(c, p)
                == d,
        forall|p: Seq<Pose>| #[trigger] is_finish(m, p) && route_cost(c, p) == d ==> is_best(m, c, p),
        best_tiles(m, c, d) == Set::new(|t: (usize, usize)| tile_on_route_costing(m, c, d, t)),
{
    assert forall|p: Seq<Pose>| #[trigger]
        is_best(m, c, p) && p.last().on(m.end) && route_cost(c, p) <= d implies route_cost(c, p)
        == d by {
        assert(is_finish(m, p));
    }
    assert forall|p: Seq<Pose>| #[trigger] is_finish(m, p) && route_cost(c, p) == d implies is_best(
        m,
        c,
        p,
    ) by {
        assert forall|q: Seq<Pose>| #[trigger] is_route_to(m, q, p.last()) implies route_cost(c, p)
            <= route_cost(c, q) by {
            assert(is_finish(m, q));
        }
    }
    let left = best_tiles(m, c, d);
    let right = Set::new(|t: (usize, usize)| tile_on_route_costing(m, c, d, t));
    assert forall|t: (usize, usize)| left.contains(t) <==> right.contains(t) by {
        if tile_on_best(m, c, d, t) {
            let h = choose|h: Direction| pose_on_best(m, c, d, #[trigger] pose_at(t, h));
            let (p, i) = choose|p: Seq<Pose>, i: int|
                #![trigger is_best(m, c, p), p[i]]
                is_best(m, c, p) && p.last().on(m.end) && route_cost(c, p) <= d && 0 <= i < p.len()
                    && p[i] == pose_at(t, h);
            assert(is_finish(m, p));
            assert(is_finish(m, p) && route_cost(c, p) == d && 0 <= i < p.len() && p[i].tile() == t);
        }
        if tile_on_route_costing(m, c, d, t) {
            let (p, i) = choose|p: Seq<Pose>, i: int|
                #![trigger is_finish(m, p), p[i]]
                is_finish(m, p) && route_cost(c, p) == d && 0 <= i < p.len() && p[i].tile() == t;
            assert(is_best(m, c, p));
            assert(p[i] == pose_at(t, p[i].dir));
            assert(is_best(m, c, p) && p.last().on(m.end) && route_cost(c, p) <= d && 0 <= i
                < p.len() && p[i] == pose_at(t, p[i].dir));
            assert(pose_on_best(m, c, d, pose_at(t, p[i].dir)));
        }
    }
    assert(left =~= right);
}

/// A route that costs nothing, where a step costs something, never leaves
/// its first tile.
pub proof fn lemma_free_route_stays(m: Maze, c: CostModel, p: Seq<Pose>, i: int)
    requires
        is_route(m, p),
        route_cost(c, p) == 0,
        c.step > 0,
        0 <= i < p.len(),
    ensures
        p[i].tile() == p[0].tile(),
    decreases p.len(),
{
    if p.len() > 1 {
        let n = p.len() - 1;
        lemma_prefix(m, c, p, n);
        assert(p.take(n + 1) =~= p);
        assert(is_move(m, p[n - 1], p[n]));
        if i < n {
            lemma_free_route_stays(m, c, p.take(n), i);
        } else {
            lemma_free_route_stays(m, c, p.take(n), n - 1);
        }
    }
}

/// A route that costs nothing, where a turn costs something, goes
/// straight on: pose `i` faces as the first does and stands `i` steps
/// ahead of it.
pub proof fn lemma_free_route_is_straight(m: Maze, c: CostModel, p: Seq<Pose>, i: int)
    requires
        is_route(m, p),
        route_cost(c, p) == 0,
        c.turn > 0,
        0 <= i < p.len(),
    ensures
        p[i].dir == p[0].dir,
        p[i].x == p[0].x + i * p[0].dir.dx(),
        p[i].y == p[0].y + i * p[0].dir.dy(),
    decreases p.len(),
{
    if p.len() > 1 {
        let n = p.len() - 1;
        lemma_prefix(m, c, p, n);
        assert(p.take(n + 1) =~= p);
        assert(is_move(m, p[n - 1], p[n]));
        if i < n {
            lemma_free_route_is_straight(m, c, p.take(n), i);
        } else {
            lemma_free_route_is_straight(m, c, p.take(n), n - 1);
            let d = p[0].dir;
            assert(p[n - 1].dir == d);
            assert(p[n].dir == d) by {
                if p[n].dir != p[n - 1].dir {
                    assert(move_cost(c, p[n - 1], p[n]) == c.turn);
                }
            }
            assert(is_forward(m, p[n - 1], p[n])) by {
                if is_turn(p[n - 1], p[n]) {
                    crate::maze::heading::lemma_turns(p[n - 1].dir);
                }
            }
            assert(n * d.dx() == (n - 1) * d.dx() + d.dx()) by (nonlinear_arith);
            assert(n * d.dy() == (n - 1) * d.dy() + d.dy()) by (nonlinear_arith);
        }
    }
}

/// Where the start is the end, the least cost is 0 and, if a step or a
/// turn costs something, the start is the only tile on a cheapest route.
pub proof fn lemma_start_is_end(m: Maze, c: CostModel)
    requires
        m.valid(),
        m.start == m.end,
    ensures
        is_min_cost(m, c, 0),
        c.step > 0 || c.turn > 0 ==> best_tiles(m, c, 0) == set![m.start] && best_tiles(m, c, 0).len()
            == 1,
{
    let p0 = seq![origin(m)];
    assert(is_finish(m, p0));
    assert(route_cost(c, p0) == 0);
    if c.step > 0 || c.turn > 0 {
        let tiles = best_tiles(m, c, 0);
        assert(is_best(m, c, p0));
        assert(p0[0] == pose_at(m.start, Direction::East));
        assert(is_best(m, c, p0) && p0.last().on(m.end) && route_cost(c, p0) <= 0 && 0 <= 0int
            < p0.len() && p0[0] == pose_at(m.start, Direction::East));
        assert(pose_on_best(m, c, 0, pose_at(m.start, Direction::East)));
        assert(tiles.contains(m.start));
        assert forall|t: (usize, usize)| tiles.contains(t) implies t == m.start by {
            let h = choose|h: Direction| pose_on_best(m, c, 0, #[trigger] pose_at(t, h));
            let (p, i) = choose|p: Seq<Pose>, i: int|
                #![trigger is_best(m, c, p), p[i]]
                is_best(m, c, p) && p.last().on(m.end) && route_cost(c, p) <= 0 && 0 <= i < p.len()
                    && p[i] == pose_at(t, h);
            if c.step > 0 {
                lemma_free_route_stays(m, c, p, i);
            } else {
                let n = p.len() - 1;
                lemma_free_route_is_straight(m, c, p, n);
                lemma_free_route_is_straight(m, c, p, i);
                assert(n * 1 == 0);
            }
        }
        assert(tiles =~= set![m.start]);
    }
}

/// If every move raises `h` by no more than the move costs, then a route
/// costs at least what `h` gains from its first pose to its last.
pub proof fn lemma_potential(m: Maze, c: CostModel, h: spec_fn(Pose) -> int, p: Seq<Pose>)
    requires
        is_route(m, p),
        forall|a: Pose, b: Pose| #[trigger] is_move(m, a, b) ==> h(b) <= h(a) + move_cost(c, a, b),
    ensures
        h(p.last()) <= h(p[0]) + route_cost(c, p),
    decreases p.len(),
{
    if p.len() > 1 {
        let n = p.len() - 1;
        lemma_prefix(m, c, p, n);
        assert(p.take(n + 1) =~= p);
        lemma_potential(m, c, h, p.take(n));
        assert(is_move(m, p[n - 1], p[n]));
    }
}

/// The cell `i` steps from `from` in the heading `d`.
pub open spec fn spot(from: (usize, usize), d: Direction, i: int) -> (int, int) {
    match d {
        Direction::North => (from.0 as int, from.1 - i),
        Direction::East => (from.0 + i, from.1 as int),
        Direction::South => (from.0 as int, from.1 + i),
        Direction::West => (from.0 - i, from.1 as int),
    }
}

/// The cell `i` steps from the start in the heading `d` is open.
pub open spec fn open_spot(m: Maze, d: Direction, i: int) -> bool {
    m.open(spot(m.start, d, i).0, spot(m.start, d, i).1)
}

/// The end lies `k` steps from the start in the heading `d`, and no wall
/// stands on the straight line between them.
pub open spec fn corridor(m: Maze, d: Direction, k: nat) -> bool {
    &&& forall|i: int| 0 <= i <= k ==> #[trigger] open_spot(m, d, i)
    &&& m.end.0 == spot(m.start, d, k as int).0
    &&& m.end.1 == spot(m.start, d, k as int).1
}

/// How many quarter turns bring a walker that faces east to face `d`.
pub open spec fn turns_to(d: Direction) -> nat {
    match d {
        Direction::East => 0,
        Direction::North => 1,
        Direction::South => 1,
        Direction::West => 2,
    }
}

/// The pose `i` steps along the corridor, facing along it.
pub open spec fn marcher(m: Maze, d: Direction, i: int) -> Pose {
    Pose { x: spot(m.start, d, i).0 as usize, y: spot(m.start, d, i).1 as usize, dir: d }
}

/// A route that has come `i` steps along the corridor can be continued to
/// its end, for the price of the remaining steps.
pub proof fn lemma_march(m: Maze, c: CostModel, d: Direction, k: nat, r: Seq<Pose>, i: nat) -> (w: Seq<
    Pose,
>)
    requires
        m.valid(),
        corridor(m, d, k),
        i <= k,
        is_route(m, r),
        r.last() == marcher(m, d, i as int),
    ensures
        is_route(m, w),
        w[0] == r[0],
        w.last() == marcher(m, d, k as int),
        route_cost(c, w) == route_cost(c, r) + (k - i) * c.step,
    decreases k - i,
{
    m.lemma_sides();
    if i == k {
        assert((k - i) * c.step == 0) by (nonlinear_arith)
            requires
                i == k,
        ;
        r
    } else {
        let next = marcher(m, d, i as int + 1);
        assert(open_spot(m, d, i as int));
        assert(open_spot(m, d, i as int + 1));
        assert(is_forward(m, r.last(), next));
        lemma_route_push(m, r, next);
        lemma_cost_push(c, r, next);
        let w = lemma_march(m, c, d, k, r.push(next), i + 1);
        assert((k - i) * c.step == (k - (i + 1)) * c.step + c.step) by (nonlinear_arith);
        w
    }
}

/// A lower bound on the cost of reaching a pose, for a corridor that leaves
/// the start in the heading `d`.
pub open spec fn corridor_floor(start: (usize, usize), c: CostModel, d: Direction, s: Pose) -> int {
    match d {
        Direction::East => if s.x > start.0 {
            (s.x - start.0) * c.step
        } else {
            0
        },
        Direction::West => if s.x < start.0 {
            (start.0 - s.x) * c.step + 2 * c.turn
        } else {
            match s.dir {
                Direction::East => 0,
                Direction::North => c.turn as int,
                Direction::South => c.turn as int,
                Direction::West => 2 * c.turn,
            }
        },
        Direction::North => if s.y < start.1 {
            (start.1 - s.y) * c.step + c.turn
        } else if s.dir == Direction::North {
            c.turn as int
        } else {
            0
        },
        Direction::South => if s.y > start.1 {
            (s.y - start.1) * c.step + c.turn
        } else if s.dir == Direction::South {
            c.turn as int
        } else {
            0
        },
    }
}

/// How a product with a price changes when the other factor moves by at
/// most one.
pub proof fn lemma_scale(n: int, n2: int, st: int)
    requires
        st >= 0,
        n2 == n + 1 || n2 == n - 1 || n2 == n,
    ensures
        n2 * st <= n * st + st,
        n2 * st >= n * st - st,
        n >= 0 ==> n * st >= 0,
        n2 >= 0 ==> n2 * st >= 0,
        n == 1 ==> n * st == st,
        n2 == 1 ==> n2 * st == st,
{
    assert(n2 * st <= n * st + st && n2 * st >= n * st - st) by (nonlinear_arith)
        requires
            st >= 0,
            n2 == n + 1 || n2 == n - 1 || n2 == n,
    ;
    assert(n >= 0 ==> n * st >= 0) by (nonlinear_arith)
        requires
            st >= 0,
    ;
    assert(n2 >= 0 ==> n2 * st >= 0) by (nonlinear_arith)
        requires
            st >= 0,
    ;
    assert(n == 1 ==> n * st == st) by (nonlinear_arith);
    assert(n2 == 1 ==> n2 * st == st) by (nonlinear_arith);
}

/// No move raises the floor by more than the move costs.
pub proof fn lemma_floor_step(m: Maze, c: CostModel, d: Direction, a: Pose, b: Pose)
    requires
        is_move(m, a, b),
    ensures
        corridor_floor(m.start, c, d, b) <= corridor_floor(m.start, c, d, a) + move_cost(c, a, b),
{
    let sx = m.start.0 as int;
    let sy = m.start.1 as int;
    let st = c.step as int;
    lemma_scale(a.x - sx, b.x - sx, st);
    lemma_scale(sx - a.x, sx - b.x, st);
    lemma_scale(a.y - sy, b.y - sy, st);
    lemma_scale(sy - a.y, sy - b.y, st);
    if is_forward(m, a, b) {
        match d {
            Direction::East => {},
            Direction::West => {},
            Direction::North => {},
            Direction::South => {},
        }
    } else {
        assert(is_turn(a, b));
    }
}

/// Where the end lies `k` steps from the start on a straight line without
/// walls, in the heading `d`, the least cost is that of `k` steps and of
/// the quarter turns that bring a walker facing east to face `d`.
pub proof fn lemma_straight_line(m: Maze, c: CostModel, d: Direction, k: nat)
    requires
        m.valid(),
        corridor(m, d, k),
        k >= 1 || d == Direction::East,
    ensures
        is_min_cost(m, c, (k * c.step + turns_to(d) * c.turn) as nat),
{
    let o = origin(m);
    let r0 = seq![o];
    assert(is_route(m, r0));
    assert(route_cost(c, r0) == 0);
    let left = Pose { x: o.x, y: o.y, dir: Direction::North };
    let right = Pose { x: o.x, y: o.y, dir: Direction::South };
    let back = Pose { x: o.x, y: o.y, dir: Direction::West };
    let r: Seq<Pose> = match d {
        Direction::East => r0,
        Direction::North => {
            assert(is_turn(o, left));
            lemma_route_push(m, r0, left);
            lemma_cost_push(c, r0, left);
            r0.push(left)
        },
        Direction::South => {
            assert(is_turn(o, right));
            lemma_route_push(m, r0, right);
            lemma_cost_push(c, r0, right);
            r0.push(right)
        },
        Direction::West => {
            assert(is_turn(o, left));
            lemma_route_push(m, r0, left);
            lemma_cost_push(c, r0, left);
            let r1 = r0.push(left);
            assert(is_turn(left, back));
            lemma_route_push(m, r1, back);
            lemma_cost_push(c, r1, back);
            r1.push(back)
        },
    };
    assert(r.last() == marcher(m, d, 0));
    let price: int = match d {
        Direction::East => 0,
        Direction::North => c.turn as int,
        Direction::South => c.turn as int,
        Direction::West => 2 * c.turn,
    };
    assert(turns_to(d) * c.turn == price) by {
        assert(0 * c.turn == 0 && 1 * c.turn == c.turn && 2 * c.turn == c.turn + c.turn)
            by (nonlinear_arith);
    }
    assert(route_cost(c, r) == price);
    let w = lemma_march(m, c, d, k, r, 0);
    let total = (k * c.step + turns_to(d) * c.turn) as nat;
    assert(k * c.step >= 0 && turns_to(d) * c.turn >= 0) by (nonlinear_arith);
    assert(route_cost(c, w) == total);
    m.lemma_sides();
    assert(open_spot(m, d, k as int));
    assert(w.last().on(m.end));
    assert(is_finish(m, w));
    let h = |s: Pose| corridor_floor(m.start, c, d, s);
    assert forall|a: Pose, b: Pose| #[trigger] is_move(m, a, b) implies h(b) <= h(a) + move_cost(
        c,
        a,
        b,
    ) by {
        lemma_floor_step(m, c, d, a, b);
    }
    assert forall|p: Seq<Pose>| #[trigger] is_finish(m, p) implies total <= route_cost(c, p) by {
        lemma_potential(m, c, h, p);
        assert(h(p[0]) == 0);
        let e = p.last();
        assert(h(e) == total) by {
            assert(k * c.step >= 0) by (nonlinear_arith);
            if k == 0 {
                assert(k * c.step == 0) by (nonlinear_arith)
                    requires
                        k == 0,
                ;
            }
            let sx = m.start.0 as int;
            let sy = m.start.1 as int;
match d {
                Direction::East => {
                    assert((e.x - sx) * c.step == k * c.step) by (nonlinear_arith)
                        requires
                            e.x - sx == k,
                    ;
                },
                Direction::West => {
                    assert((sx - e.x) * c.step == k * c.step) by (nonlinear_arith)
                        requires
                            sx - e.x == k,
                    ;
                },
                Direction::South => {
                    assert((e.y - sy) * c.step == k * c.step) by (nonlinear_arith)
                        requires
                            e.y - sy == k,
                    ;
                },
                Direction::North => {
                    assert((sy - e.y) * c.step == k * c.step) by (nonlinear_arith)
                        requires
                            sy - e.y == k,
                    ;
                },
            }
        }
    }
}

/// The tile is that of a pose of the route.
pub open spec fn on_route(r: Seq<Pose>, tile: (usize, usize)) -> bool {
    exists|j: int| 0 <= j < r.len() && (#[trigger] r[j]).tile() == tile
}

/// The tiles that a route passes.
pub open spec fn route_tiles(r: Seq<Pose>) -> Set<(usize, usize)> {
    Set::new(|tile: (usize, usize)| on_route(r, tile))
}

/// Every tile of a cheapest route from the start to the end is counted
/// among the tiles of the cheapest routes.
pub proof fn lemma_route_is_counted(m: Maze, c: CostModel, d: nat, r: Seq<Pose>)
    requires
        is_min_cost(m, c, d),
        is_finish(m, r),
        route_cost(c, r) == d,
    ensures
        route_tiles(r).subset_of(best_tiles(m, c, d)),
{
    assert forall|t: (usize, usize)| route_tiles(r).contains(t) implies best_tiles(m, c, d).contains(t) by {
        let j = choose|j: int| 0 <= j < r.len() && (#[trigger] r[j]).tile() == t;
        assert(is_best(m, c, r)) by {
            assert forall|q: Seq<Pose>| #[trigger] is_route_to(m, q, r.last()) implies route_cost(c, r)
                <= route_cost(c, q) by {
                assert(is_finish(m, q));
            }
        }
        assert(r[j] == pose_at(t, r[j].dir));
        assert(is_best(m, c, r) && r.last().on(m.end) && route_cost(c, r) <= d && 0 <= j < r.len()
            && r[j] == pose_at(t, r[j].dir));
        assert(pose_on_best(m, c, d, pose_at(t, r[j].dir)));
        assert(tile_on_best(m, c, d, t));
    }
}

/// Of two cheapest routes from the start to the end, the tiles of both
/// are counted; where the one passes a tile that the other does not, more
/// tiles are counted than the other passes.
pub proof fn lemma_two_routes(m: Maze, c: CostModel, d: nat, one: Seq<Pose>, other: Seq<Pose>, i: int)
    requires
        is_min_cost(m, c, d),
        best_tiles(m, c, d).finite(),
        is_finish(m, one),
        route_cost(c, one) == d,
        is_finish(m, other),
        route_cost(c, other) == d,
        0 <= i < one.len(),
        !on_route(other, one[i].tile()),
    ensures
        route_tiles(one).union(route_tiles(other)).subset_of(best_tiles(m, c, d)),
        route_tiles(other).finite(),
        best_tiles(m, c, d).len() > route_tiles(other).len(),
{
    let all = best_tiles(m, c, d);
    lemma_route_is_counted(m, c, d, one);
    lemma_route_is_counted(m, c, d, other);
    let t = one[i].tile();
    assert(route_tiles(one).contains(t));
    vstd::set_lib::lemma_len_subset(route_tiles(other), all);
    let more = route_tiles(other).insert(t);
    assert(more.subset_of(all));
    vstd::set_lib::lemma_len_subset(more, all);
}

} // verus!
