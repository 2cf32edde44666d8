//! Every tile that lies on some cheapest route from the start to the end.

use vstd::prelude::*;
use crate::maze::frontier::{link_of, pred_of, step_back, Frontier, Link, PredSet};
use crate::maze::grid::{Grid, Maze};
use crate::maze::heading::Direction;
use crate::maze::route::{
    best_tiles, is_best, is_distance, is_min_cost, is_move, is_route, is_route_to, lemma_best_prefix,
    lemma_cost_push, lemma_prefix, lemma_route_push, lemma_splice, move_cost, origin,
    pose_at, pose_on_best, reachable_at, route_cost, tile_on_best, CostModel, Pose,
};
use crate::maze::table::StateTable;

verus! {

/// Tells a marked slot from an unmarked one.
pub open spec fn is_marked() -> spec_fn(bool) -> bool {
    |b: bool| b
}

/// The pose is marked in the table.
pub open spec fn visited(routes: &StateTable<bool>, s: Pose) -> bool {
    routes.covers(s) && routes.get(s)
}

/// The limit of a frontier as a number, 0 for a frontier without limit.
/// The backward walk is made on frontiers with a limit only.
pub open spec fn bound(f: &Frontier) -> nat {
    match f.limit() {
        Some(l) => l as nat,
        None => 0,
    }
}

/// What holds of the marks and the tiles collected during a backward walk:
/// every marked pose is settled and lies on a cheapest route to the end that
/// costs no more than the limit, and the tiles are, each once, the cells
/// that hold a marked pose.
pub open spec fn marks_ok(
    routes: &StateTable<bool>,
    tiles: Seq<(usize, usize)>,
    f: &Frontier,
    g: Maze,
    c: CostModel,
) -> bool {
    &&& routes.wf()
    &&& routes.width() == g.width()
    &&& routes.height() == g.height()
    &&& tiles.no_duplicates()
    &&& forall|t: (usize, usize)|
        #[trigger] tiles.contains(t) <==> exists|d: Direction| visited(routes, #[trigger] pose_at(t, d))
    &&& forall|s: Pose| #[trigger]
        visited(routes, s) ==> f.settled(s) && pose_on_best(g, c, bound(f), s)
}

/// Every recorded predecessor of a marked pose is marked too, or waits in
/// `waiting`.
pub open spec fn closed_but(routes: &StateTable<bool>, f: &Frontier, waiting: Seq<Pose>) -> bool {
    forall|s: Pose, k: Link|
        visited(routes, s) && #[trigger] f.flagged(s, k) ==> visited(routes, pred_of(s, k))
            || waiting.contains(pred_of(s, k))
}

/// A recorded predecessor of the pose `a` is the pose `b`.
pub open spec fn leads_back(f: &Frontier, a: Pose, b: Pose) -> bool {
    exists|k: Link| #[trigger] f.flagged(a, k) && pred_of(a, k) == b
}

/// From the `i`-th pose of `w` a recorded predecessor leads to the next.
pub open spec fn trace_step(f: &Frontier, w: Seq<Pose>, i: int) -> bool {
    leads_back(f, w[i], w[i + 1])
}

/// A sequence of poses, each a recorded predecessor of the one before.
pub open spec fn is_trace(f: &Frontier, w: Seq<Pose>) -> bool {
    &&& w.len() > 0
    &&& forall|i: int| 0 <= i < w.len() - 1 ==> #[trigger] trace_step(f, w, i)
}

/// The pose `q` is reached from the pose `s` by going back over recorded
/// predecessors, any number of times; `s` itself is reached.
pub open spec fn reached(f: &Frontier, s: Pose, q: Pose) -> bool {
    exists|w: Seq<Pose>| #[trigger] is_trace(f, w) && w[0] == s && w.last() == q
}

/// Every pose is reached from itself.
pub proof fn lemma_reached_self(f: &Frontier, s: Pose)
    ensures
        reached(f, s, s),
{
    let w = seq![s];
    assert(is_trace(f, w) && w[0] == s && w.last() == s);
}

/// What a recorded predecessor leads back to from a reached pose is
/// reached.
pub proof fn lemma_reached_on(f: &Frontier, s: Pose, a: Pose, b: Pose)
    requires
        reached(f, s, a),
        leads_back(f, a, b),
    ensures
        reached(f, s, b),
{
    let w = choose|w: Seq<Pose>| #[trigger] is_trace(f, w) && w[0] == s && w.last() == a;
    let v = w.push(b);
    assert forall|i: int| 0 <= i < v.len() - 1 implies #[trigger] trace_step(f, v, i) by {
        if i < w.len() - 1 {
            assert(trace_step(f, w, i));
        }
    }
    assert(is_trace(f, v) && v[0] == s && v.last() == b);
}

/// Marks that are closed under recorded predecessors hold every pose of a
/// trace that begins on a marked pose.
pub proof fn lemma_trace_marked(routes: &StateTable<bool>, f: &Frontier, w: Seq<Pose>, i: int)
    requires
        closed_but(routes, f, Seq::empty()),
        is_trace(f, w),
        visited(routes, w[0]),
        0 <= i < w.len(),
    ensures
        visited(routes, w[i]),
    decreases i,
{
    if i > 0 {
        lemma_trace_marked(routes, f, w, i - 1);
        assert(trace_step(f, w, i - 1));
        let k = choose|k: Link| #[trigger] f.flagged(w[i - 1], k) && pred_of(w[i - 1], k) == w[i];
        assert(!Seq::<Pose>::empty().contains(pred_of(w[i - 1], k)));
    }
}

/// Marks that are closed under recorded predecessors hold what is reached
/// from a marked pose.
pub proof fn lemma_reached_marked(routes: &StateTable<bool>, f: &Frontier, s: Pose, q: Pose)
    requires
        closed_but(routes, f, Seq::empty()),
        visited(routes, s),
        reached(f, s, q),
    ensures
        visited(routes, q),
{
    let w = choose|w: Seq<Pose>| #[trigger] is_trace(f, w) && w[0] == s && w.last() == q;
    lemma_trace_marked(routes, f, w, w.len() - 1);
}

/// Two least costs of the same pose are equal.
pub proof fn lemma_distance_unique(g: Maze, c: CostModel, t: Pose, d1: nat, d2: nat)
    requires
        is_distance(g, c, t, d1),
        is_distance(g, c, t, d2),
    ensures
        d1 == d2,
{
    let first = choose|p: Seq<Pose>| #[trigger] is_route_to(g, p, t) && route_cost(c, p) == d1;
    let second = choose|p: Seq<Pose>| #[trigger] is_route_to(g, p, t) && route_cost(c, p) == d2;
    assert(is_route_to(g, first, t));
    assert(is_route_to(g, second, t));
}

/// A recorded predecessor of a pose on a cheapest route to the end lies on
/// such a route too.
pub proof fn lemma_pred_on_best(f: &Frontier, g: Maze, c: CostModel, s: Pose, k: Link)
    requires
        f.inv(g, c),
        f.settled(s),
        f.flagged(s, k),
        pose_on_best(g, c, bound(f), s),
    ensures
        f.settled(pred_of(s, k)),
        pose_on_best(g, c, bound(f), pred_of(s, k)),
{
    let u = pred_of(s, k);
    let (p, i) = choose|p: Seq<Pose>, i: int|
        #![trigger is_best(g, c, p), p[i]]
        is_best(g, c, p) && p.last().on(g.end) && route_cost(c, p) <= bound(f) && 0 <= i < p.len()
            && p[i] == s;
    f.lemma_link_sound(g, c, s, k);
    f.lemma_settled(g, c, u);
    f.lemma_settled(g, c, s);
    let q = choose|q: Seq<Pose>| #[trigger] is_route_to(g, q, u) && route_cost(c, q) == f.cost(u);
    lemma_best_prefix(g, c, p, i + 1);
    lemma_distance_unique(g, c, s, f.cost(s), route_cost(c, p.take(i + 1)));
    let q2 = q.push(s);
    lemma_route_push(g, q, s);
    lemma_cost_push(c, q, s);
    lemma_splice(g, c, q2, p, i);
    let r = q2 + p.skip(i + 1);
    assert(route_cost(c, r) == route_cost(c, p));
    assert(is_best(g, c, r)) by {
        assert forall|x: Seq<Pose>| #[trigger] is_route_to(g, x, r.last()) implies route_cost(c, r)
            <= route_cost(c, x) by {
            assert(is_route_to(g, x, p.last()));
        }
    }
    let j = q.len() - 1;
    assert(r[j] == u);
    assert(is_best(g, c, r) && r.last().on(g.end) && route_cost(c, r) <= bound(f) && 0 <= j
        < r.len() && r[j] == u);
}

/// Once the frontier is drained and the marks are closed under recorded
/// predecessors and hold every settled pose on the end cell, every pose of
/// every cheapest route to the end within the limit is marked.
pub proof fn lemma_best_visited(
    routes: &StateTable<bool>,
    f: &Frontier,
    g: Maze,
    c: CostModel,
    p: Seq<Pose>,
    i: int,
)
    requires
        f.inv(g, c),
        f.drained(),
        f.limit() is Some,
        closed_but(routes, f, Seq::empty()),
        forall|d: Direction| #[trigger]
            f.settled(pose_at(g.end, d)) ==> visited(routes, pose_at(g.end, d)),
        is_best(g, c, p),
        p.last().on(g.end),
        route_cost(c, p) <= bound(f),
        0 <= i < p.len(),
    ensures
        visited(routes, p[i]),
    decreases p.len() - i,
{
    lemma_prefix(g, c, p, i + 1);
    assert(is_route_to(g, p.take(i + 1), p[i]));
    f.lemma_drained(g, c, p.take(i + 1), p[i]);
    if i == p.len() - 1 {
        assert(p[i] == pose_at(g.end, p[i].dir));
    } else {
        lemma_best_visited(routes, f, g, c, p, i + 1);
        let u = p[i];
        let t = p[i + 1];
        lemma_prefix(g, c, p, i + 2);
        assert(is_route_to(g, p.take(i + 2), t));
        f.lemma_drained(g, c, p.take(i + 2), t);
        lemma_best_prefix(g, c, p, i + 1);
        lemma_best_prefix(g, c, p, i + 2);
        f.lemma_settled(g, c, u);
        f.lemma_settled(g, c, t);
        lemma_distance_unique(g, c, u, f.cost(u), route_cost(c, p.take(i + 1)));
        lemma_distance_unique(g, c, t, f.cost(t), route_cost(c, p.take(i + 2)));
        assert(is_move(g, p[i], p[i + 1]));
        f.lemma_link_complete(g, c, u, t);
        assert(f.flagged(t, link_of(u, t)));
    }
}

/// What a sequence holds after one more item was pushed.
pub proof fn lemma_push_contains<A>(s: Seq<A>, x: A)
    ensures
        forall|y: A| #[trigger] s.push(x).contains(y) <==> s.contains(y) || y == x,
{
    let t = s.push(x);
    assert forall|y: A| #[trigger] t.contains(y) <==> s.contains(y) || y == x by {
        if s.contains(y) {
            let j = choose|j: int| 0 <= j < s.len() && s[j] == y;
            assert(t[j] == y);
        }
        if y == x {
            assert(t[s.len() as int] == y);
        }
        if t.contains(y) {
            let j = choose|j: int| 0 <= j < t.len() && t[j] == y;
            if j < s.len() {
                assert(s[j] == y);
            }
        }
    }
}

/// What a sequence held before its last item was taken off.
pub proof fn lemma_pop_contains<A>(s: Seq<A>)
    requires
        s.len() > 0,
    ensures
        forall|y: A| #[trigger] s.contains(y) <==> s.drop_last().contains(y) || y == s.last(),
{
    let t = s.drop_last();
    assert(t.push(s.last()) =~= s);
    lemma_push_contains(t, s.last());
}

/// The tiles stay the cells that hold a marked pose when one more pose is
/// marked and its tile is added unless a pose on it was marked before.
proof fn lemma_tiles_step(
    routes0: &StateTable<bool>,
    routes: &StateTable<bool>,
    tiles0: Seq<(usize, usize)>,
    now: Seq<(usize, usize)>,
    s: Pose,
    seen_before: bool,
)
    requires
        tiles0.no_duplicates(),
        forall|t: (usize, usize)|
            #[trigger] tiles0.contains(t) <==> exists|d: Direction|
                visited(routes0, #[trigger] pose_at(t, d)),
        forall|q: Pose| #[trigger] visited(routes, q) <==> visited(routes0, q) || q == s,
        seen_before <==> exists|d: Direction| visited(routes0, #[trigger] pose_at(s.tile(), d)),
        now == (if seen_before {
            tiles0
        } else {
            tiles0.push(s.tile())
        }),
    ensures
        now.no_duplicates(),
        forall|t: (usize, usize)|
            #[trigger] now.contains(t) <==> exists|d: Direction|
                visited(routes, #[trigger] pose_at(t, d)),
{
    let tile = s.tile();
    lemma_push_contains(tiles0, tile);
    if !seen_before {
        assert(!tiles0.contains(tile));
        assert forall|i: int, j: int| 0 <= i < now.len() && 0 <= j < now.len() && i != j implies now[i]
            != now[j] by {
            if i < tiles0.len() {
                assert(tiles0.contains(now[i]));
            }
            if j < tiles0.len() {
                assert(tiles0.contains(now[j]));
            }
        }
    }
    assert(pose_at(tile, s.dir) == s);
    assert(visited(routes, pose_at(tile, s.dir)));
    assert forall|t: (usize, usize)| #[trigger] now.contains(t) implies exists|d: Direction|
        visited(routes, #[trigger] pose_at(t, d)) by {
        if tiles0.contains(t) {
            let d = choose|d: Direction| visited(routes0, #[trigger] pose_at(t, d));
            assert(visited(routes, pose_at(t, d)));
        } else {
            assert(t == tile);
        }
    }
    assert forall|t: (usize, usize)|
        (exists|d: Direction| visited(routes, #[trigger] pose_at(t, d))) implies #[trigger] now.contains(
        t,
    ) by {
        let d = choose|d: Direction| visited(routes, #[trigger] pose_at(t, d));
        if pose_at(t, d) == s {
            assert(t == tile);
            if seen_before {
                assert(tiles0.contains(tile));
            }
        } else {
            assert(visited(routes0, pose_at(t, d)));
            assert(tiles0.contains(t));
        }
    }
}

/// Marks one pose and collects its tile, unless the tile is there already.
fn mark_pose(
    s: Pose,
    routes: &mut StateTable<bool>,
    tiles: &mut Vec<(usize, usize)>,
    links: &Frontier,
    grid: &Grid,
    costs: CostModel,
)
    requires
        marks_ok(old(routes), old(tiles)@, links, grid@, costs),
        old(routes).covers(s),
        !visited(old(routes), s),
        links.settled(s),
        pose_on_best(grid@, costs, bound(links), s),
    ensures
        marks_ok(final(routes), final(tiles)@, links, grid@, costs),
        forall|q: Pose| #[trigger] visited(final(routes), q) <==> visited(old(routes), q) || q == s,
        final(routes).tally(is_marked()) == old(routes).tally(is_marked()) + 1,
        final(tiles)@ == old(tiles)@ || final(tiles)@ == old(tiles)@.push(s.tile()),
{
    let ghost routes0 = *routes;
    let ghost tiles0 = tiles@;
    let tile = (s.x, s.y);
    let seen_before = routes.read(Pose { x: s.x, y: s.y, dir: Direction::North }) || routes.read(
        Pose { x: s.x, y: s.y, dir: Direction::East },
    ) || routes.read(Pose { x: s.x, y: s.y, dir: Direction::South }) || routes.read(
        Pose { x: s.x, y: s.y, dir: Direction::West },
    );
    proof {
        if seen_before {
            let d0 = if routes0.get(pose_at(tile, Direction::North)) {
                Direction::North
            } else if routes0.get(pose_at(tile, Direction::East)) {
                Direction::East
            } else if routes0.get(pose_at(tile, Direction::South)) {
                Direction::South
            } else {
                Direction::West
            };
            assert(visited(&routes0, pose_at(tile, d0)));
        } else {
            assert forall|d: Direction| !visited(&routes0, #[trigger] pose_at(tile, d)) by {
                match d {
                    Direction::North => {},
                    Direction::East => {},
                    Direction::South => {},
                    Direction::West => {},
                }
            }
        }
    }
    routes.write(s, true);
    if !seen_before {
        tiles.push(tile);
    }
    proof {
        assert(is_marked()(true));
        assert(!is_marked()(false));
        assert forall|q: Pose| #[trigger] visited(routes, q) <==> visited(&routes0, q) || q == s by {}
        lemma_tiles_step(&routes0, routes, tiles0, tiles@, s, seen_before);
    }
}

/// Lets every recorded predecessor of `s` wait for its turn.
fn push_preds(s: Pose, waiting: &mut Vec<Pose>, links: &Frontier, grid: &Grid, costs: CostModel)
    requires
        links.inv(grid@, costs),
        links.settled(s),
        pose_on_best(grid@, costs, bound(links), s),
    ensures
        final(waiting)@.len() <= old(waiting)@.len() + 3,
        forall|q: Pose| old(waiting)@.contains(q) ==> final(waiting)@.contains(q),
        forall|k: Link| #[trigger] links.flagged(s, k) ==> final(waiting)@.contains(pred_of(s, k)),
        forall|q: Pose| #[trigger]
            final(waiting)@.contains(q) ==> old(waiting)@.contains(q) || (links.settled(q)
                && pose_on_best(grid@, costs, bound(links), q) && leads_back(links, s, q)),
{
    proof {
        links.lemma_shape(grid@, costs);
    }
    let preds = links.preds(grid, s);
    let ghost w0 = waiting@;
    if preds.behind {
        proof {
            assert(preds.flag(Link::Behind));
            links.lemma_link_sound(grid@, costs, s, Link::Behind);
            lemma_pred_on_best(links, grid@, costs, s, Link::Behind);
            lemma_push_contains(waiting@, pred_of(s, Link::Behind));
        }
        let u = step_back(grid, s, Link::Behind);
        waiting.push(u);
    }
    let ghost w1 = waiting@;
    if preds.left {
        proof {
            assert(preds.flag(Link::Left));
            links.lemma_link_sound(grid@, costs, s, Link::Left);
            lemma_pred_on_best(links, grid@, costs, s, Link::Left);
            lemma_push_contains(waiting@, pred_of(s, Link::Left));
        }
        let u = step_back(grid, s, Link::Left);
        waiting.push(u);
    }
    let ghost w2 = waiting@;
    if preds.right {
        proof {
            assert(preds.flag(Link::Right));
            links.lemma_link_sound(grid@, costs, s, Link::Right);
            lemma_pred_on_best(links, grid@, costs, s, Link::Right);
            lemma_push_contains(waiting@, pred_of(s, Link::Right));
        }
        let u = step_back(grid, s, Link::Right);
        waiting.push(u);
    }
    proof {
        let w3 = waiting@;
        assert forall|k: Link| #[trigger] links.flagged(s, k) implies w3.contains(pred_of(s, k)) by {
            assert(preds.flag(k));
            match k {
                Link::Behind => {
                    assert(w1.contains(pred_of(s, k)));
                    assert(w2.contains(pred_of(s, k)));
                },
                Link::Left => {
                    assert(w2.contains(pred_of(s, k)));
                },
                Link::Right => {},
            }
        }
        assert forall|q: Pose| w0.contains(q) implies w3.contains(q) by {
            assert(w1.contains(q));
            assert(w2.contains(q));
        }
        assert forall|q: Pose| #[trigger] w3.contains(q) implies w0.contains(q) || (links.settled(q)
            && pose_on_best(grid@, costs, bound(links), q) && leads_back(links, s, q)) by {
            if !w2.contains(q) {
                assert(links.flagged(s, Link::Right) && pred_of(s, Link::Right) == q);
            } else if !w1.contains(q) {
                assert(links.flagged(s, Link::Left) && pred_of(s, Link::Left) == q);
            } else if !w0.contains(q) {
                assert(links.flagged(s, Link::Behind) && pred_of(s, Link::Behind) == q);
            }
        }
    }
}

/// One backward walk of the search for the tiles of all cheapest routes:
/// marks `cur` and every pose reached from it over recorded predecessors,
/// and collects the tiles they stand on, each once, behind those
/// collected before. Nothing changes where there is no pose, where the
/// pose is not settled, or where it is marked already.
///
/// The walk works on the state of that search: a frontier with a limit,
/// marks that hold only poses on cheapest routes within the limit and are
/// closed under recorded predecessors, and a seed that lies on such a
/// route if it is settled.
pub fn walk(
    cur: Option<Pose>,
    routes: &mut StateTable<bool>,
    tiles: &mut Vec<(usize, usize)>,
    links: &Frontier,
    grid: &Grid,
    costs: CostModel,
)
    requires
        links.inv(grid@, costs),
        links.limit() is Some,
        marks_ok(old(routes), old(tiles)@, links, grid@, costs),
        closed_but(old(routes), links, Seq::empty()),
        match cur {
            Some(s) => links.settled(s) ==> pose_on_best(grid@, costs, bound(links), s),
            None => true,
        },
    ensures
        marks_ok(final(routes), final(tiles)@, links, grid@, costs),
        closed_but(final(routes), links, Seq::empty()),
        forall|q: Pose| visited(old(routes), q) ==> visited(final(routes), q),
        match cur {
            Some(s) => links.settled(s) ==> visited(final(routes), s),
            None => true,
        },
        forall|q: Pose| #[trigger]
            visited(final(routes), q) <==> visited(old(routes), q) || (cur is Some && links.settled(
                cur.unwrap(),
            ) && reached(links, cur.unwrap(), q)),
        cur is None || !links.settled(cur.unwrap()) || visited(old(routes), cur.unwrap())
            ==> *final(routes) == *old(routes) && final(tiles)@ == old(tiles)@,
        final(tiles)@.len() >= old(tiles)@.len(),
        final(tiles)@.take(old(tiles)@.len() as int) == old(tiles)@,
{
    proof {
        links.lemma_shape(grid@, costs);
        assert(tiles@.take(tiles@.len() as int) =~= tiles@);
    }
    let seed = match cur {
        Some(s) => s,
        None => {
            return ;
        },
    };
    if links.lookup(grid, seed).is_none() {
        return ;
    }
    proof {
        links.lemma_settled(grid@, costs, seed);
    }
    if routes.read(seed) {
        proof {
            assert forall|q: Pose| reached(links, seed, q) implies visited(routes, q) by {
                lemma_reached_marked(routes, links, seed, q);
            }
        }
        return ;
    }
    let mut waiting: Vec<Pose> = Vec::new();
    waiting.push(seed);
    proof {
        lemma_reached_self(links, seed);
        assert forall|q: Pose| #[trigger] waiting@.contains(q) implies links.settled(q)
            && pose_on_best(grid@, costs, bound(links), q) && reached(links, seed, q) by {
            assert(waiting@.len() == 1 && waiting@[0] == q);
        }
        assert(waiting@[0] == seed);
        assert(closed_but(routes, links, waiting@));
    }
    while waiting.len() > 0
        invariant
            links.inv(grid@, costs),
            links.shape_ok(grid@),
            marks_ok(routes, tiles@, links, grid@, costs),
            closed_but(routes, links, waiting@),
            forall|q: Pose| visited(old(routes), q) ==> visited(routes, q),
            forall|q: Pose| #[trigger]
                waiting@.contains(q) ==> links.settled(q) && pose_on_best(
                    grid@,
                    costs,
                    bound(links),
                    q,
                ) && reached(links, seed, q),
            cur == Some(seed),
            links.settled(seed),
            visited(routes, seed) || waiting@.contains(seed),
            forall|q: Pose| #[trigger]
                visited(routes, q) ==> visited(old(routes), q) || reached(links, seed, q),
            tiles@.len() >= old(tiles)@.len(),
            tiles@.take(old(tiles)@.len() as int) == old(tiles)@,
        decreases 3 * (4 * grid@.width() * grid@.height() - routes.tally(is_marked())) + waiting.len(),
    {
        let ghost stack0 = waiting@;
        let ghost routes0 = *routes;
        proof {
            lemma_pop_contains(stack0);
            routes.lemma_tally_le(is_marked());
        }
        let s = waiting.pop().unwrap();
        let ghost stack1 = waiting@;
        proof {
            assert(stack1 == stack0.drop_last());
            assert(stack0.contains(s));
            links.lemma_shape(grid@, costs);
            assert(links.settled(s));
        }
        if routes.read(s) {
            proof {
                assert forall|q: Pose| #[trigger] stack1.contains(q) implies stack0.contains(q) by {}
                assert forall|x: Pose, k: Link|
                    visited(routes, x) && #[trigger] links.flagged(x, k) implies visited(
                    routes,
                    pred_of(x, k),
                ) || stack1.contains(pred_of(x, k)) by {
                    let u = pred_of(x, k);
                    if !visited(routes, u) {
                        assert(stack0.contains(u));
                    }
                }
            }
        } else {
            mark_pose(s, routes, tiles, links, grid, costs);
            push_preds(s, &mut waiting, links, grid, costs);
            proof {
                let fin = waiting@;
                assert forall|x: Pose, k: Link|
                    visited(routes, x) && #[trigger] links.flagged(x, k) implies visited(
                    routes,
                    pred_of(x, k),
                ) || fin.contains(pred_of(x, k)) by {
                    let u = pred_of(x, k);
                    if x != s {
                        assert(visited(&routes0, x));
                        if !visited(&routes0, u) {
                            assert(stack0.contains(u));
                            if u != s {
                                assert(stack1.contains(u));
                            }
                        }
                    }
                }
                assert forall|q: Pose| #[trigger] fin.contains(q) implies links.settled(q)
                    && pose_on_best(grid@, costs, bound(links), q) && reached(links, seed, q) by {
                    if stack1.contains(q) {
                        assert(stack0.contains(q));
                    } else {
                        lemma_reached_on(links, seed, s, q);
                    }
                }
                assert(tiles@.take(old(tiles)@.len() as int) =~= old(tiles)@);
                routes.lemma_tally_le(is_marked());
            }
        }
    }
    proof {
        assert forall|s: Pose, k: Link|
            visited(routes, s) && #[trigger] links.flagged(s, k) implies visited(
            routes,
            pred_of(s, k),
        ) || Seq::<Pose>::empty().contains(pred_of(s, k)) by {
            assert(!waiting@.contains(pred_of(s, k)));
        }
        assert forall|q: Pose| reached(links, seed, q) implies visited(routes, q) by {
            lemma_reached_marked(routes, links, seed, q);
        }
    }
}

/// The tiles, each once, that lie on some cheapest route to the end cell
/// costing at most `target_cost`.
pub fn optimal_tiles(grid: &Grid, costs: CostModel, target_cost: u128) -> (tiles: Vec<(usize, usize)>)
    ensures
        tiles@.no_duplicates(),
        tiles@.to_set() == best_tiles(grid@, costs, target_cost as nat),
{
    let mut frontier = Frontier::new(grid, costs, Some(target_cost));
    loop
        invariant
            frontier.inv(grid@, costs),
            frontier.limit() == Some(target_cost),
        ensures
            frontier.inv(grid@, costs),
            frontier.limit() == Some(target_cost),
            frontier.drained(),
        decreases 4 * grid@.width() * grid@.height() - frontier.count(),
    {
        match frontier.advance(grid, costs) {
            None => {
                break ;
            },
            Some(_) => {
                proof {
                    frontier.lemma_count(grid@, costs);
                }
            },
        }
    }
    proof {
        frontier.lemma_shape(grid@, costs);
    }
    let cells = grid.area();
    let mut routes: StateTable<bool> = StateTable::new(grid.width(), grid.height(), cells, false);
    let mut tiles: Vec<(usize, usize)> = Vec::new();
    let end = grid.end();
    let headings = Direction::all();
    let mut i: usize = 0;
    proof {
        assert forall|t: (usize, usize)| #[trigger]
            tiles@.contains(t) <==> exists|d: Direction| visited(&routes, #[trigger] pose_at(t, d)) by {
            if exists|d: Direction| visited(&routes, #[trigger] pose_at(t, d)) {
                let d = choose|d: Direction| visited(&routes, #[trigger] pose_at(t, d));
                assert(!routes.get(pose_at(t, d)));
            }
        }
    }
    while i < 4
        invariant
            i <= 4,
            end == grid@.end,
            headings@ == seq![Direction::North, Direction::East, Direction::South, Direction::West],
            frontier.inv(grid@, costs),
            frontier.limit() == Some(target_cost),
            frontier.drained(),
            marks_ok(&routes, tiles@, &frontier, grid@, costs),
            closed_but(&routes, &frontier, Seq::empty()),
            forall|k: int|
                0 <= k < i ==> (frontier.settled(#[trigger] pose_at(end, headings@[k])) ==> visited(
                    &routes,
                    pose_at(end, headings@[k]),
                )),
        decreases 4 - i,
    {
        let seed = Pose { x: end.0, y: end.1, dir: headings[i] };
        proof {
            if frontier.settled(seed) {
                frontier.lemma_settled(grid@, costs, seed);
                let p = choose|p: Seq<Pose>| #[trigger]
                    is_route_to(grid@, p, seed) && route_cost(costs, p) == frontier.cost(seed);
                assert(is_best(grid@, costs, p));
                let j = p.len() - 1;
                assert(is_best(grid@, costs, p) && p.last().on(grid@.end) && route_cost(costs, p)
                    <= bound(&frontier) && 0 <= j < p.len() && p[j] == seed);
            }
            assert(seed == pose_at(end, headings@[i as int]));
        }
        walk(Some(seed), &mut routes, &mut tiles, &frontier, grid, costs);
        i += 1;
    }
    proof {
        assert forall|d: Direction| #[trigger]
            frontier.settled(pose_at(grid@.end, d)) implies visited(
            &routes,
            pose_at(grid@.end, d),
        ) by {
            let k: int = match d {
                Direction::North => 0,
                Direction::East => 1,
                Direction::South => 2,
                Direction::West => 3,
            };
            assert(headings@[k] == d);
        }
        let target = best_tiles(grid@, costs, target_cost as nat);
        assert forall|t: (usize, usize)| tiles@.to_set().contains(t) <==> target.contains(t) by {
            if tiles@.contains(t) {
                let d = choose|d: Direction| visited(&routes, #[trigger] pose_at(t, d));
                assert(pose_on_best(grid@, costs, target_cost as nat, pose_at(t, d)));
                assert(tile_on_best(grid@, costs, target_cost as nat, t));
            }
            if tile_on_best(grid@, costs, target_cost as nat, t) {
                let d = choose|d: Direction|
                    pose_on_best(grid@, costs, target_cost as nat, #[trigger] pose_at(t, d));
                let (p, j) = choose|p: Seq<Pose>, j: int|
                    #![trigger is_best(grid@, costs, p), p[j]]
                    is_best(grid@, costs, p) && p.last().on(grid@.end) && route_cost(costs, p)
                        <= target_cost as nat && 0 <= j < p.len() && p[j] == pose_at(t, d);
                lemma_best_visited(&routes, &frontier, grid@, costs, p, j);
                assert(visited(&routes, pose_at(t, d)));
                assert(tiles@.contains(t));
            }
        }
        assert(tiles@.to_set() =~= target);
    }
    tiles
}

/// How many tiles lie on some cheapest route from the start to the end,
/// given the least cost of such a route. A cost that is not the least cost
/// on this grid is an error of the caller's.
pub fn traverse_all(grid: &Grid, costs: CostModel, target_cost: u128) -> (n: usize)
    requires
        is_min_cost(grid@, costs, target_cost as nat),
    ensures
        best_tiles(grid@, costs, target_cost as nat).finite(),
        n == best_tiles(grid@, costs, target_cost as nat).len(),
{
    let tiles = optimal_tiles(grid, costs, target_cost);
    proof {
        tiles@.unique_seq_to_set();
    }
    tiles.len()
}

} // verus!
