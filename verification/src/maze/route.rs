//! Poses, moves and routes: the graph the walker travels, and what a route
//! costs.

use vstd::prelude::*;
use crate::maze::grid::Maze;
use crate::maze::heading::Direction;

verus! {

/// Where the walker stands and which way it faces.
#[derive(Clone, Copy, Debug, PartialEq, Eq, Structural, Hash)]
pub struct Pose {
    pub x: usize,
    pub y: usize,
    pub dir: Direction,
}

/// What one step forward and one quarter turn cost.
#[derive(Clone, Copy, Debug, PartialEq, Eq, Structural)]
pub struct CostModel {
    pub step: u32,
    pub turn: u32,
}

impl CostModel {
    /// A step costs 1, a quarter turn 1000.
    pub fn standard() -> (c: CostModel)
        ensures
            c == (CostModel { step: 1, turn: 1000 }),
    {
        CostModel { step: 1, turn: 1000 }
    }

    /// The dearer of the two moves.
    pub open spec fn dearest(self) -> nat {
        if self.step >= self.turn {
            self.step as nat
        } else {
            self.turn as nat
        }
    }
}

impl Pose {
    /// Whether the pose stands on the tile `(x, y)`.
    pub open spec fn on(self, tile: (usize, usize)) -> bool {
        self.x == tile.0 && self.y == tile.1
    }

    pub open spec fn tile(self) -> (usize, usize) {
        (self.x, self.y)
    }
}

/// The pose on `tile` that faces `d`.
pub open spec fn pose_at(tile: (usize, usize), d: Direction) -> Pose {
    Pose { x: tile.0, y: tile.1, dir: d }
}

/// `b` is one step forward from `a`, onto an open cell.
pub open spec fn is_forward(g: Maze, a: Pose, b: Pose) -> bool {
    &&& b.dir == a.dir
    &&& b.x == a.x + a.dir.dx()
    &&& b.y == a.y + a.dir.dy()
    &&& g.open(b.x as int, b.y as int)
}

/// `b` is `a` after a quarter turn in place.
pub open spec fn is_turn(a: Pose, b: Pose) -> bool {
    &&& b.x == a.x
    &&& b.y == a.y
    &&& (b.dir == a.dir.left() || b.dir == a.dir.right())
}

/// The walker can go from `a` to `b` in one move.
pub open spec fn is_move(g: Maze, a: Pose, b: Pose) -> bool {
    is_forward(g, a, b) || is_turn(a, b)
}

/// Cost of the move from `a` to `b`.
pub open spec fn move_cost(c: CostModel, a: Pose, b: Pose) -> nat {
    if a.dir == b.dir {
        c.step as nat
    } else {
        c.turn as nat
    }
}

/// A route is a non-empty walk of moves that begins on an open cell.
pub open spec fn is_route(g: Maze, p: Seq<Pose>) -> bool {
    &&& p.len() > 0
    &&& g.open(p[0].x as int, p[0].y as int)
    &&& forall|i: int| 0 <= i < p.len() - 1 ==> is_move(g, #[trigger] p[i], p[i + 1])
}

/// The sum of the costs of a route's moves.
pub open spec fn route_cost(c: CostModel, p: Seq<Pose>) -> nat
    decreases p.len(),
{
    if p.len() <= 1 {
        0
    } else {
        route_cost(c, p.drop_last()) + move_cost(c, p[p.len() - 2], p.last())
    }
}

/// Where every search begins: on the start cell, facing east.
pub open spec fn origin(g: Maze) -> Pose {
    Pose { x: g.start.0, y: g.start.1, dir: Direction::East }
}

/// `p` is a route from the origin to the pose `t`.
pub open spec fn is_route_to(g: Maze, p: Seq<Pose>, t: Pose) -> bool {
    is_route(g, p) && p[0] == origin(g) && p.last() == t
}

/// Some route from the origin to `t` costs exactly `d`.
pub open spec fn reachable_at(g: Maze, c: CostModel, t: Pose, d: nat) -> bool {
    exists|p: Seq<Pose>| #[trigger] is_route_to(g, p, t) && route_cost(c, p) == d
}

/// `d` is the least cost of any route from the origin to `t`.
pub open spec fn is_distance(g: Maze, c: CostModel, t: Pose, d: nat) -> bool {
    &&& reachable_at(g, c, t, d)
    &&& forall|p: Seq<Pose>| #[trigger] is_route_to(g, p, t) ==> d <= route_cost(c, p)
}

/// `p` is a route from the origin that ends on the end cell, in any heading.
pub open spec fn is_finish(g: Maze, p: Seq<Pose>) -> bool {
    is_route(g, p) && p[0] == origin(g) && p.last().on(g.end)
}

/// `d` is the least cost of any route from the origin to the end cell.
pub open spec fn is_min_cost(g: Maze, c: CostModel, d: nat) -> bool {
    &&& exists|p: Seq<Pose>| #[trigger] is_finish(g, p) && route_cost(c, p) == d
    &&& forall|p: Seq<Pose>| #[trigger] is_finish(g, p) ==> d <= route_cost(c, p)
}

/// No route from the origin ends on the end cell.
pub open spec fn no_route(g: Maze) -> bool {
    forall|p: Seq<Pose>| !#[trigger] is_finish(g, p)
}

/// `p` is a cheapest route to the pose it ends in.
pub open spec fn is_best(g: Maze, c: CostModel, p: Seq<Pose>) -> bool {
    &&& is_route(g, p)
    &&& p[0] == origin(g)
    &&& forall|q: Seq<Pose>| #[trigger] is_route_to(g, q, p.last()) ==> route_cost(c, p) <= route_cost(c, q)
}

/// The pose `s` lies on a cheapest route to some pose on the end cell, and
/// that route costs at most `limit`.
pub open spec fn pose_on_best(g: Maze, c: CostModel, limit: nat, s: Pose) -> bool {
    exists|p: Seq<Pose>, i: int|
        #![trigger is_best(g, c, p), p[i]]
        is_best(g, c, p) && p.last().on(g.end) && route_cost(c, p) <= limit && 0 <= i < p.len()
            && p[i] == s
}

/// The tile lies on a cheapest route to some pose on the end cell, and that
/// route costs at most `limit`.
pub open spec fn tile_on_best(g: Maze, c: CostModel, limit: nat, tile: (usize, usize)) -> bool {
    exists|d: Direction| pose_on_best(g, c, limit, #[trigger] pose_at(tile, d))
}

/// All tiles that lie on such routes.
pub open spec fn best_tiles(g: Maze, c: CostModel, limit: nat) -> Set<(usize, usize)> {
    Set::new(|tile: (usize, usize)| tile_on_best(g, c, limit, tile))
}

/// Appending one move adds its cost.
pub proof fn lemma_cost_push(c: CostModel, p: Seq<Pose>, t: Pose)
    requires
        p.len() > 0,
    ensures
        route_cost(c, p.push(t)) == route_cost(c, p) + move_cost(c, p.last(), t),
{
    let q = p.push(t);
    assert(q.drop_last() =~= p);
}

/// Appending one move to a route gives a route.
pub proof fn lemma_route_push(g: Maze, p: Seq<Pose>, t: Pose)
    requires
        is_route(g, p),
        is_move(g, p.last(), t),
    ensures
        is_route(g, p.push(t)),
        p.push(t)[0] == p[0],
        p.push(t).last() == t,
{
    let q = p.push(t);
    assert forall|i: int| 0 <= i < q.len() - 1 implies is_move(g, #[trigger] q[i], q[i + 1]) by {
        if i < p.len() - 1 {
            assert(is_move(g, p[i], p[i + 1]));
        }
    }
}

/// Every front part of a route is a route, and costs no more.
pub proof fn lemma_prefix(g: Maze, c: CostModel, p: Seq<Pose>, n: int)
    requires
        is_route(g, p),
        1 <= n <= p.len(),
    ensures
        is_route(g, p.take(n)),
        p.take(n)[0] == p[0],
        p.take(n).last() == p[n - 1],
        route_cost(c, p.take(n)) <= route_cost(c, p),
        n < p.len() ==> route_cost(c, p.take(n + 1)) == route_cost(c, p.take(n)) + move_cost(
            c,
            p[n - 1],
            p[n],
        ),
    decreases p.len() - n,
{
    let q = p.take(n);
    assert forall|i: int| 0 <= i < q.len() - 1 implies is_move(g, #[trigger] q[i], q[i + 1]) by {
        assert(is_move(g, p[i], p[i + 1]));
    }
    if n < p.len() {
        lemma_prefix(g, c, p, n + 1);
        let r = p.take(n + 1);
        assert(r.drop_last() =~= q);
    } else {
        assert(q =~= p);
    }
}

/// Every pose of a route stands on an open cell.
pub proof fn lemma_route_open(g: Maze, p: Seq<Pose>, i: int)
    requires
        is_route(g, p),
        0 <= i < p.len(),
    ensures
        g.open(p[i].x as int, p[i].y as int),
    decreases i,
{
    if i > 0 {
        lemma_route_open(g, p, i - 1);
        assert(is_move(g, p[i - 1], p[i]));
    }
}

/// A route `q` that ends where `p` is after `i` moves can take over the rest
/// of `p`: the joined route ends where `p` ends, and its cost is that of `q`
/// plus what `p` costs after its first `i` moves.
pub proof fn lemma_splice(g: Maze, c: CostModel, q: Seq<Pose>, p: Seq<Pose>, i: int)
    requires
        is_route(g, q),
        is_route(g, p),
        0 <= i < p.len(),
        q.last() == p[i],
    ensures
        is_route(g, q + p.skip(i + 1)),
        (q + p.skip(i + 1))[0] == q[0],
        (q + p.skip(i + 1)).last() == p.last(),
        route_cost(c, q + p.skip(i + 1)) + route_cost(c, p.take(i + 1)) == route_cost(c, q)
            + route_cost(c, p),
    decreases p.len(),
{
    let r = q + p.skip(i + 1);
    if i == p.len() - 1 {
        assert(r =~= q);
        assert(p.take(i + 1) =~= p);
    } else {
        let n = p.len() - 1;
        let front = p.drop_last();
        assert(front =~= p.take(n));
        lemma_prefix(g, c, p, n);
        lemma_splice(g, c, q, front, i);
        let r0 = q + front.skip(i + 1);
        assert(r0.last() == p[n - 1]);
        assert(is_move(g, p[n - 1], p[n]));
        lemma_route_push(g, r0, p[n]);
        lemma_cost_push(c, r0, p[n]);
        assert(r0.push(p[n]) =~= r);
        assert(front.take(i + 1) =~= p.take(i + 1));
        assert(route_cost(c, p) == route_cost(c, front) + move_cost(c, p[n - 1], p[n]));
    }
}

/// The one-pose route that stays at the origin.
pub proof fn lemma_origin_route(g: Maze, c: CostModel)
    requires
        g.valid(),
    ensures
        is_route_to(g, seq![origin(g)], origin(g)),
        route_cost(c, seq![origin(g)]) == 0,
        is_distance(g, c, origin(g), 0),
{
    let p = seq![origin(g)];
    assert(is_route_to(g, p, origin(g)));
}

/// Every front part of a cheapest route is a cheapest route.
pub proof fn lemma_best_prefix(g: Maze, c: CostModel, p: Seq<Pose>, n: int)
    requires
        is_best(g, c, p),
        1 <= n <= p.len(),
    ensures
        is_best(g, c, p.take(n)),
        is_distance(g, c, p[n - 1], route_cost(c, p.take(n))),
{
    lemma_prefix(g, c, p, n);
    let f = p.take(n);
    assert forall|q: Seq<Pose>| #[trigger] is_route_to(g, q, f.last()) implies route_cost(c, f)
        <= route_cost(c, q) by {
        lemma_splice(g, c, q, p, n - 1);
        let r = q + p.skip(n);
        assert(is_route_to(g, r, p.last()));
    }
    assert(is_route_to(g, f, p[n - 1]));
}

} // verus!
