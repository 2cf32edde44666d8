//! The frontier of a cheapest-first expansion over poses.
//!
//! A frontier settles poses one at a time, in order of cost. For every
//! settled pose it keeps the least cost of reaching it and the set of
//! predecessors through which that cost is met. What is not yet settled
//! waits in a priority queue.

use vstd::prelude::*;
use crate::maze::grid::{Grid, Maze};
use crate::maze::heading::Direction;
use crate::maze::route::{
    is_distance, is_forward, is_move, is_route, is_route_to, is_turn, lemma_cost_push,
    lemma_origin_route, lemma_prefix, lemma_route_push, move_cost, origin, reachable_at,
    route_cost, CostModel, Pose,
};
use crate::maze::table::StateTable;
use crate::queue::MinQueue;

verus! {

/// The move by which a pose is entered: a step from the cell behind it, or a
/// quarter turn from the heading to its left or to its right.
#[derive(Clone, Copy, Debug, PartialEq, Eq, Structural)]
pub enum Link {
    Behind,
    Left,
    Right,
}

/// The predecessors recorded for one pose. A pose has at most three poses
/// from which one move leads to it, and the search may begin in it; the set
/// holds one flag for each.
#[derive(Clone, Copy, Debug, PartialEq, Eq, Structural)]
pub struct PredSet {
    /// The search began here: the pose has the predecessor "none".
    pub origin: bool,
    pub behind: bool,
    pub left: bool,
    pub right: bool,
}

/// A pose waiting in the queue, with the pose it was reached from.
#[derive(Clone, Copy, Debug, PartialEq, Eq, Structural)]
pub struct Arrival {
    pub at: Pose,
    pub from: Option<Pose>,
}

/// The move that leads from `u` to `s`, if one does.
pub open spec fn link_of(u: Pose, s: Pose) -> Link {
    if u.dir == s.dir {
        Link::Behind
    } else if u.dir == s.dir.left() {
        Link::Left
    } else {
        Link::Right
    }
}

/// The pose from which the move `k` leads to `s`.
pub open spec fn pred_of(s: Pose, k: Link) -> Pose {
    match k {
        Link::Behind => Pose {
            x: (s.x - s.dir.dx()) as usize,
            y: (s.y - s.dir.dy()) as usize,
            dir: s.dir,
        },
        Link::Left => Pose { x: s.x, y: s.y, dir: s.dir.left() },
        Link::Right => Pose { x: s.x, y: s.y, dir: s.dir.right() },
    }
}

/// The pose one step forward of `s`.
pub open spec fn ahead(s: Pose) -> Pose {
    Pose { x: (s.x + s.dir.dx()) as usize, y: (s.y + s.dir.dy()) as usize, dir: s.dir }
}

/// The cell in front of `s` is an open cell of the grid.
pub open spec fn can_advance(g: Maze, s: Pose) -> bool {
    g.open(s.x + s.dir.dx(), s.y + s.dir.dy())
}

pub open spec fn turned_left(s: Pose) -> Pose {
    Pose { x: s.x, y: s.y, dir: s.dir.left() }
}

pub open spec fn turned_right(s: Pose) -> Pose {
    Pose { x: s.x, y: s.y, dir: s.dir.right() }
}

/// A pose has exactly three possible moves, and each move is found again
/// from its target.
pub proof fn lemma_moves(g: Maze, a: Pose, b: Pose)
    requires
        g.valid(),
    ensures
        is_move(g, a, b) <==> (can_advance(g, a) && b == ahead(a)) || b == turned_left(a) || b
            == turned_right(a),
        is_move(g, a, b) ==> pred_of(b, link_of(a, b)) == a,
{
    g.lemma_sides();
}

impl PredSet {
    pub open spec fn flag(self, k: Link) -> bool {
        match k {
            Link::Behind => self.behind,
            Link::Left => self.left,
            Link::Right => self.right,
        }
    }

    /// The set with one more predecessor of the pose `at`.
    pub open spec fn marked(self, at: Pose, from: Option<Pose>) -> PredSet {
        match from {
            None => PredSet { origin: true, ..self },
            Some(u) => match link_of(u, at) {
                Link::Behind => PredSet { behind: true, ..self },
                Link::Left => PredSet { left: true, ..self },
                Link::Right => PredSet { right: true, ..self },
            },
        }
    }

    /// The empty set.
    pub fn none() -> (s: PredSet)
        ensures
            s == (PredSet { origin: false, behind: false, left: false, right: false }),
    {
        PredSet { origin: false, behind: false, left: false, right: false }
    }

    /// Adds `from` to the predecessors of the pose `at`.
    pub fn mark(self, at: Pose, from: Option<Pose>) -> (s: PredSet)
        ensures
            s == self.marked(at, from),
    {
        match from {
            None => PredSet { origin: true, behind: self.behind, left: self.left, right: self.right },
            Some(u) => {
                if u.dir == at.dir {
                    PredSet { origin: self.origin, behind: true, left: self.left, right: self.right }
                } else if u.dir == at.dir.turn_left() {
                    PredSet { origin: self.origin, behind: self.behind, left: true, right: self.right }
                } else {
                    PredSet { origin: self.origin, behind: self.behind, left: self.left, right: true }
                }
            },
        }
    }
}

/// Tells a settled slot from an empty one.
pub open spec fn is_settled_slot() -> spec_fn(Option<u128>) -> bool {
    |v: Option<u128>| v is Some
}

/// The state of an expansion.
pub struct Frontier {
    best: StateTable<Option<u128>>,
    links: StateTable<PredSet>,
    queue: MinQueue<Arrival>,
    limit: Option<u128>,
}

impl Frontier {
    /// The pose has been settled.
    pub closed spec fn settled(&self, s: Pose) -> bool {
        self.best.covers(s) && self.best.get(s) is Some
    }

    /// The cost at which a settled pose was settled.
    pub closed spec fn cost(&self, s: Pose) -> nat {
        self.best.get(s).unwrap() as nat
    }

    /// The move `k` into `s` is recorded as one that meets the cost of `s`.
    pub closed spec fn flagged(&self, s: Pose, k: Link) -> bool {
        self.links.get(s).flag(k)
    }

    /// The predecessor "none" is recorded for `s`.
    pub closed spec fn from_origin(&self, s: Pose) -> bool {
        self.links.get(s).origin
    }

    /// How many poses are settled.
    pub closed spec fn count(&self) -> nat {
        self.best.tally(is_settled_slot())
    }

    /// The entry waits in the queue.
    pub closed spec fn pending(&self, e: (u128, Arrival)) -> bool {
        self.queue@.count(e) > 0
    }

    /// The cost beyond which nothing is settled, if there is one.
    pub closed spec fn limit(&self) -> Option<u128> {
        self.limit
    }

    /// `d` does not exceed the limit.
    pub open spec fn within(&self, d: nat) -> bool {
        match self.limit() {
            Some(l) => d <= l,
            None => true,
        }
    }

    /// Every entry still waiting costs more than the limit.
    pub open spec fn drained(&self) -> bool {
        forall|e: (u128, Arrival)| #[trigger] self.pending(e) ==> !self.within(e.0 as nat)
    }

    pub closed spec fn entry_ok(&self, g: Maze, c: CostModel, e: (u128, Arrival)) -> bool {
        &&& g.open(e.1.at.x as int, e.1.at.y as int)
        &&& reachable_at(g, c, e.1.at, e.0 as nat)
        &&& e.0 <= self.count() * c.dearest()
        &&& match e.1.from {
            None => e.1.at == origin(g) && e.0 == 0,
            Some(u) => self.settled(u) && is_move(g, u, e.1.at) && self.cost(u) + move_cost(
                c,
                u,
                e.1.at,
            ) == e.0,
        }
    }

    pub closed spec fn link_ok(&self, g: Maze, c: CostModel, s: Pose, k: Link) -> bool {
        let u = pred_of(s, k);
        is_move(g, u, s) && link_of(u, s) == k && self.settled(u) && self.cost(u) + move_cost(c, u, s)
            == self.cost(s)
    }

    pub closed spec fn settled_ok(&self, g: Maze, c: CostModel, s: Pose) -> bool {
        &&& g.open(s.x as int, s.y as int)
        &&& is_distance(g, c, s, self.cost(s))
        &&& self.within(self.cost(s))
        &&& (self.from_origin(s) ==> s == origin(g) && self.cost(s) == 0)
        &&& (self.flagged(s, Link::Behind) ==> self.link_ok(g, c, s, Link::Behind))
        &&& (self.flagged(s, Link::Left) ==> self.link_ok(g, c, s, Link::Left))
        &&& (self.flagged(s, Link::Right) ==> self.link_ok(g, c, s, Link::Right))
    }

    pub closed spec fn edge_ok(&self, g: Maze, c: CostModel, u: Pose, t: Pose) -> bool {
        let d = self.cost(u) + move_cost(c, u, t);
        ||| self.pending((d as u128, Arrival { at: t, from: Some(u) }))
        ||| (self.settled(t) && self.cost(t) <= d && (self.cost(t) == d ==> self.flagged(
            t,
            link_of(u, t),
        )))
    }

    pub closed spec fn origin_ok(&self, g: Maze) -> bool {
        ||| self.pending((0u128, Arrival { at: origin(g), from: None }))
        ||| (self.settled(origin(g)) && self.cost(origin(g)) == 0 && self.from_origin(origin(g)))
    }

    pub closed spec fn shape_ok(&self, g: Maze) -> bool {
        &&& g.valid()
        &&& self.best.wf()
        &&& self.links.wf()
        &&& self.queue.wf()
        &&& self.best.width() == g.width()
        &&& self.best.height() == g.height()
        &&& self.links.width() == g.width()
        &&& self.links.height() == g.height()
    }

    /// What holds of a frontier between any two steps.
    #[verifier::opaque]
    pub closed spec fn inv(&self, g: Maze, c: CostModel) -> bool {
        &&& self.shape_ok(g)
        &&& forall|e: (u128, Arrival)| #[trigger] self.pending(e) ==> self.entry_ok(g, c, e)
        &&& forall|e: (u128, Arrival), s: Pose| #[trigger]
            self.pending(e) && #[trigger] self.settled(s) ==> self.cost(s) <= e.0
        &&& forall|s: Pose| #[trigger] self.settled(s) ==> self.settled_ok(g, c, s)
        &&& forall|u: Pose, t: Pose|
            self.settled(u) && #[trigger] is_move(g, u, t) ==> self.edge_ok(g, c, u, t)
        &&& self.origin_ok(g)
    }

    /// The grid is well formed, and no more poses are settled than the grid
    /// has.
    pub proof fn lemma_count(&self, g: Maze, c: CostModel)
        requires
            self.inv(g, c),
        ensures
            g.valid(),
            self.count() <= 4 * g.width() * g.height(),
    {
        reveal(Frontier::inv);
        self.best.lemma_tally_le(is_settled_slot());
    }

    /// A settled pose stands on an open cell, its cost is the least cost of
    /// any route to it, and that cost is within the limit.
    pub proof fn lemma_settled(&self, g: Maze, c: CostModel, s: Pose)
        requires
            self.inv(g, c),
            self.settled(s),
        ensures
            g.open(s.x as int, s.y as int),
            is_distance(g, c, s, self.cost(s)),
            self.within(self.cost(s)),
    {
        reveal(Frontier::inv);
        assert(self.settled_ok(g, c, s));
    }

    /// Whatever route leads to a pose that is not settled, an entry waits
    /// that costs no more than the route, and no settled pose costs more.
    pub proof fn lemma_pending(&self, g: Maze, c: CostModel, p: Seq<Pose>, t: Pose)
        requires
            self.inv(g, c),
            is_route_to(g, p, t),
            !self.settled(t),
        ensures
            exists|e: (u128, Arrival)| #[trigger] self.pending(e) && e.0 <= route_cost(c, p),
            forall|s: Pose| #[trigger] self.settled(s) ==> self.cost(s) <= route_cost(c, p),
        decreases p.len(),
    {
        reveal(Frontier::inv);
        if p.len() == 1 {
            let e = (0u128, Arrival { at: origin(g), from: None });
            assert(self.pending(e));
        } else {
            let n = p.len() - 1;
            let q = p.take(n);
            let u = q.last();
            lemma_prefix(g, c, p, n);
            assert(p.take(n + 1) =~= p);
            assert(is_route_to(g, q, u));
            assert(is_move(g, p[n - 1], p[n]));
            if !self.settled(u) {
                self.lemma_pending(g, c, q, u);
                let e = choose|e: (u128, Arrival)| #[trigger]
                    self.pending(e) && e.0 <= route_cost(c, q);
                assert(self.pending(e) && e.0 <= route_cost(c, p));
            } else {
                assert(self.settled_ok(g, c, u));
                assert(self.edge_ok(g, c, u, t));
                let d = self.cost(u) + move_cost(c, u, t);
                let e = (d as u128, Arrival { at: t, from: Some(u) });
                assert(self.pending(e));
                assert(self.entry_ok(g, c, e));
            }
        }
        let e = choose|e: (u128, Arrival)| #[trigger] self.pending(e) && e.0 <= route_cost(c, p);
        assert forall|s: Pose| #[trigger] self.settled(s) implies self.cost(s) <= route_cost(
            c,
            p,
        ) by {
            assert(self.pending(e) && self.settled(s));
        }
    }

    /// Once the frontier is drained, every pose that a route within the
    /// limit leads to is settled.
    pub proof fn lemma_drained(&self, g: Maze, c: CostModel, p: Seq<Pose>, t: Pose)
        requires
            self.inv(g, c),
            self.drained(),
            is_route_to(g, p, t),
            self.within(route_cost(c, p)),
        ensures
            self.settled(t),
    {
        if !self.settled(t) {
            self.lemma_pending(g, c, p, t);
            let e = choose|e: (u128, Arrival)| #[trigger]
                self.pending(e) && e.0 <= route_cost(c, p);
            assert(!self.within(e.0 as nat));
        }
    }

    /// What a recorded predecessor is: a settled pose one move before `s`
    /// whose cost and the move's add up to the cost of `s`.
    pub proof fn lemma_link_sound(&self, g: Maze, c: CostModel, s: Pose, k: Link)
        requires
            self.inv(g, c),
            self.settled(s),
            self.flagged(s, k),
        ensures
            is_move(g, pred_of(s, k), s),
            self.settled(pred_of(s, k)),
            self.cost(pred_of(s, k)) + move_cost(c, pred_of(s, k), s) == self.cost(s),
    {
        reveal(Frontier::inv);
        assert(self.settled_ok(g, c, s));
        assert(self.link_ok(g, c, s, k));
    }

    /// Once the frontier is drained, every move between settled poses that
    /// meets the cost of its target is recorded.
    pub proof fn lemma_link_complete(&self, g: Maze, c: CostModel, u: Pose, t: Pose)
        requires
            self.inv(g, c),
            self.drained(),
            self.settled(u),
            self.settled(t),
            is_move(g, u, t),
            self.cost(u) + move_cost(c, u, t) == self.cost(t),
        ensures
            self.flagged(t, link_of(u, t)),
            pred_of(t, link_of(u, t)) == u,
    {
        reveal(Frontier::inv);
        lemma_moves(g, u, t);
        assert(self.edge_ok(g, c, u, t));
        let d = self.cost(u) + move_cost(c, u, t);
        let e = (d as u128, Arrival { at: t, from: Some(u) });
        if self.pending(e) {
            assert(self.entry_ok(g, c, e));
            assert(self.settled_ok(g, c, t));
            assert(!self.within(e.0 as nat));
        }
    }
}


/// The pose one step forward of `s`, if the walker can go there.
pub fn step_forward(grid: &Grid, s: Pose) -> (r: Option<Pose>)
    ensures
        match r {
            Some(b) => can_advance(grid@, s) && b == ahead(s) && is_forward(grid@, s, b),
            None => !can_advance(grid@, s),
        },
{
    let _cells = grid.area();
    let target: Option<(usize, usize)> = match s.dir {
        Direction::North => if s.y == 0 {
            None
        } else {
            Some((s.x, s.y - 1))
        },
        Direction::East => if s.x == usize::MAX {
            None
        } else {
            Some((s.x + 1, s.y))
        },
        Direction::South => if s.y == usize::MAX {
            None
        } else {
            Some((s.x, s.y + 1))
        },
        Direction::West => if s.x == 0 {
            None
        } else {
            Some((s.x - 1, s.y))
        },
    };
    match target {
        None => {
            proof {
                if can_advance(grid@, s) {
                    grid@.lemma_sides();
                }
            }
            None
        },
        Some((x, y)) => {
            if grid.is_open(x, y) {
                proof {
                    grid@.lemma_sides();
                }
                Some(Pose { x, y, dir: s.dir })
            } else {
                None
            }
        },
    }
}

/// The pose from which the move `k` leads to `s`.
pub fn step_back(grid: &Grid, s: Pose, k: Link) -> (u: Pose)
    requires
        is_move(grid@, pred_of(s, k), s),
        link_of(pred_of(s, k), s) == k,
    ensures
        u == pred_of(s, k),
{
    match k {
        Link::Behind => {
            let ghost u = pred_of(s, k);
            assert(is_forward(grid@, u, s));
            match s.dir {
                Direction::North => Pose { x: s.x, y: s.y + 1, dir: s.dir },
                Direction::East => Pose { x: s.x - 1, y: s.y, dir: s.dir },
                Direction::South => Pose { x: s.x, y: s.y - 1, dir: s.dir },
                Direction::West => Pose { x: s.x + 1, y: s.y, dir: s.dir },
            }
        },
        Link::Left => Pose { x: s.x, y: s.y, dir: s.dir.turn_left() },
        Link::Right => Pose { x: s.x, y: s.y, dir: s.dir.turn_right() },
    }
}

/// `x` is one of the entries that settling the entry `e` adds to the queue.
pub open spec fn is_successor(g: Maze, c: CostModel, e: (u128, Arrival), x: (u128, Arrival)) -> bool {
    let at = e.1.at;
    ||| x == ((e.0 + c.turn) as u128, Arrival { at: turned_left(at), from: Some(at) })
    ||| x == ((e.0 + c.turn) as u128, Arrival { at: turned_right(at), from: Some(at) })
    ||| (can_advance(g, at) && x == ((e.0 + c.step) as u128, Arrival { at: ahead(at), from: Some(at) }))
}

impl Frontier {
    /// `post` is `pre` after the entry `e`, whose pose was settled before,
    /// has left the queue.
    pub closed spec fn skip_step(pre: Frontier, post: Frontier, g: Maze, e: (u128, Arrival)) -> bool {
        let at = e.1.at;
        &&& post.shape_ok(g)
        &&& post.best == pre.best
        &&& post.limit == pre.limit
        &&& post.queue@ == pre.queue@.remove(e)
        &&& forall|q: Pose|
            pre.links.covers(q) && q != at ==> #[trigger] post.links.get(q) == pre.links.get(q)
        &&& post.links.get(at) == (if e.0 == pre.cost(at) {
            pre.links.get(at).marked(at, e.1.from)
        } else {
            pre.links.get(at)
        })
    }

    /// `post` is `pre` after the entry `e` has left the queue and its pose
    /// has been settled.
    pub closed spec fn settle_step(
        pre: Frontier,
        post: Frontier,
        g: Maze,
        c: CostModel,
        e: (u128, Arrival),
    ) -> bool {
        let at = e.1.at;
        &&& post.shape_ok(g)
        &&& post.limit == pre.limit
        &&& post.best.get(at) == Some(e.0)
        &&& forall|q: Pose|
            pre.best.covers(q) && q != at ==> #[trigger] post.best.get(q) == pre.best.get(q)
        &&& post.count() == pre.count() + 1
        &&& post.links.get(at) == (PredSet {
            origin: false,
            behind: false,
            left: false,
            right: false,
        }).marked(at, e.1.from)
        &&& forall|q: Pose|
            pre.links.covers(q) && q != at ==> #[trigger] post.links.get(q) == pre.links.get(q)
        &&& forall|x: (u128, Arrival)| #[trigger]
            post.pending(x) <==> (pre.queue@.remove(e).count(x) > 0 || is_successor(g, c, e, x))
    }

    proof fn lemma_skip_entries(
        pre: Frontier,
        post: Frontier,
        g: Maze,
        c: CostModel,
        e: (u128, Arrival),
    )
        requires
            pre.inv(g, c),
            pre.pending(e),
            pre.settled(e.1.at),
            Self::skip_step(pre, post, g, e),
        ensures
            forall|x: (u128, Arrival)| #[trigger] post.pending(x) ==> pre.pending(x),
            forall|x: (u128, Arrival)| #[trigger] post.pending(x) ==> post.entry_ok(g, c, x),
            forall|x: (u128, Arrival), s: Pose| #[trigger]
                post.pending(x) && #[trigger] post.settled(s) ==> post.cost(s) <= x.0,
    {
        reveal(Frontier::inv);
        assert forall|x: (u128, Arrival)| #[trigger] post.pending(x) implies pre.pending(x) by {}
        assert forall|x: (u128, Arrival)| #[trigger] post.pending(x) implies post.entry_ok(g, c, x) by {
            assert(pre.pending(x));
            assert(pre.entry_ok(g, c, x));
        }
        assert forall|x: (u128, Arrival), s: Pose| #[trigger]
            post.pending(x) && #[trigger] post.settled(s) implies post.cost(s) <= x.0 by {
            assert(pre.pending(x) && pre.settled(s));
        }
    }

    proof fn lemma_skip_settled(
        pre: Frontier,
        post: Frontier,
        g: Maze,
        c: CostModel,
        e: (u128, Arrival),
        s: Pose,
    )
        requires
            pre.inv(g, c),
            pre.pending(e),
            pre.settled(e.1.at),
            Self::skip_step(pre, post, g, e),
            post.settled(s),
        ensures
            post.settled_ok(g, c, s),
    {
        reveal(Frontier::inv);
        let at = e.1.at;
        assert(pre.entry_ok(g, c, e));
        assert(pre.settled(s));
        assert(pre.settled_ok(g, c, s));
        assert(pre.flagged(s, Link::Behind) ==> pre.link_ok(g, c, s, Link::Behind));
        assert(pre.flagged(s, Link::Left) ==> pre.link_ok(g, c, s, Link::Left));
        assert(pre.flagged(s, Link::Right) ==> pre.link_ok(g, c, s, Link::Right));
        if s == at && e.0 == pre.cost(at) {
            match e.1.from {
                None => {},
                Some(u) => {
                    lemma_moves(g, u, at);
                    let k = link_of(u, at);
                    assert(pre.link_ok(g, c, at, k));
                },
            }
        }
    }

    proof fn lemma_skip_edge(
        pre: Frontier,
        post: Frontier,
        g: Maze,
        c: CostModel,
        e: (u128, Arrival),
        u: Pose,
        t: Pose,
    )
        requires
            pre.inv(g, c),
            pre.pending(e),
            pre.settled(e.1.at),
            Self::skip_step(pre, post, g, e),
            post.settled(u),
            is_move(g, u, t),
        ensures
            post.edge_ok(g, c, u, t),
    {
        reveal(Frontier::inv);
        let at = e.1.at;
        assert(pre.settled(u));
        assert(pre.edge_ok(g, c, u, t));
        assert(pre.pending(e) && pre.settled(at));
        assert(pre.cost(at) <= e.0);
        let d = pre.cost(u) + move_cost(c, u, t);
        let x = (d as u128, Arrival { at: t, from: Some(u) });
        if pre.pending(x) {
            if x == e {
                assert(pre.entry_ok(g, c, e));
                assert(post.settled(t));
            } else {
                assert(post.queue@.count(x) == pre.queue@.count(x));
                assert(post.pending(x));
            }
        } else {
            assert(pre.settled(t));
        }
    }

    proof fn lemma_skip(pre: Frontier, post: Frontier, g: Maze, c: CostModel, e: (u128, Arrival))
        requires
            pre.inv(g, c),
            pre.pending(e),
            pre.settled(e.1.at),
            Self::skip_step(pre, post, g, e),
        ensures
            post.inv(g, c),
    {
        reveal(Frontier::inv);
        Self::lemma_skip_entries(pre, post, g, c, e);
        assert forall|s: Pose| #[trigger] post.settled(s) implies post.settled_ok(g, c, s) by {
            Self::lemma_skip_settled(pre, post, g, c, e, s);
        }
        assert forall|u: Pose, t: Pose| post.settled(u) && #[trigger] is_move(g, u, t) implies post.edge_ok(
            g,
            c,
            u,
            t,
        ) by {
            Self::lemma_skip_edge(pre, post, g, c, e, u, t);
        }
        assert(post.origin_ok(g)) by {
            let x = (0u128, Arrival { at: origin(g), from: None });
            assert(pre.pending(e) && pre.settled(e.1.at));
            if pre.pending(x) {
                if x == e {
                    assert(pre.entry_ok(g, c, e));
                } else {
                    assert(post.queue@.count(x) == pre.queue@.count(x));
                    assert(post.pending(x));
                }
            }
        }
        assert(post.shape_ok(g));
    }

    proof fn lemma_settle(pre: Frontier, post: Frontier, g: Maze, c: CostModel, e: (u128, Arrival))
        requires
            pre.inv(g, c),
            pre.pending(e),
            !pre.settled(e.1.at),
            forall|x: (u128, Arrival)| #[trigger] pre.pending(x) ==> e.0 <= x.0,
            pre.within(e.0 as nat),
            e.0 + c.dearest() <= u128::MAX,
            Self::settle_step(pre, post, g, c, e),
        ensures
            post.inv(g, c),
    {
        reveal(Frontier::inv);
        let at = e.1.at;
        assert(pre.entry_ok(g, c, e));
        assert(pre.best.covers(at));
        let p = choose|p: Seq<Pose>| #[trigger] is_route_to(g, p, at) && route_cost(c, p) == e.0;
        assert(is_distance(g, c, at, e.0 as nat)) by {
            assert forall|q: Seq<Pose>| #[trigger] is_route_to(g, q, at) implies e.0 <= route_cost(
                c,
                q,
            ) by {
                pre.lemma_pending(g, c, q, at);
            }
        }
        assert forall|s: Pose| pre.settled(s) implies post.settled(s) && post.cost(s) == pre.cost(
            s,
        ) by {}
        assert forall|s: Pose| #[trigger] post.settled(s) implies pre.settled(s) || s == at by {}
        assert(post.settled(at) && post.cost(at) == e.0);
        assert(pre.count() * c.dearest() + c.dearest() == post.count() * c.dearest())
            by (nonlinear_arith)
            requires
                post.count() == pre.count() + 1,
        ;
        assert forall|x: (u128, Arrival)| #[trigger] post.pending(x) implies post.entry_ok(g, c, x) by {
            if pre.queue@.remove(e).count(x) > 0 {
                assert(pre.pending(x));
                assert(pre.entry_ok(g, c, x));
            } else {
                assert(is_successor(g, c, e, x));
                lemma_moves(g, at, x.1.at);
                lemma_route_push(g, p, x.1.at);
                lemma_cost_push(c, p, x.1.at);
                assert(is_route_to(g, p.push(x.1.at), x.1.at));
            }
        }
        assert forall|x: (u128, Arrival), s: Pose| #[trigger]
            post.pending(x) && #[trigger] post.settled(s) implies post.cost(s) <= x.0 by {
            if pre.queue@.remove(e).count(x) > 0 {
                assert(pre.pending(x));
                if s != at {
                    assert(pre.settled(s));
                }
            } else {
                assert(is_successor(g, c, e, x));
                if s != at {
                    assert(pre.settled(s));
                    assert(pre.cost(s) <= e.0);
                }
            }
        }
        assert forall|s: Pose| #[trigger] post.settled(s) implies post.settled_ok(g, c, s) by {
            if s == at {
                match e.1.from {
                    None => {},
                    Some(u) => {
                        lemma_moves(g, u, at);
                        let k = link_of(u, at);
                        assert(pre.settled(u));
                        assert(post.link_ok(g, c, at, k));
                    },
                }
            } else {
                assert(pre.settled(s));
                assert(pre.settled_ok(g, c, s));
                assert(pre.flagged(s, Link::Behind) ==> pre.link_ok(g, c, s, Link::Behind));
                assert(pre.flagged(s, Link::Left) ==> pre.link_ok(g, c, s, Link::Left));
                assert(pre.flagged(s, Link::Right) ==> pre.link_ok(g, c, s, Link::Right));
            }
        }
        assert forall|u: Pose, t: Pose| post.settled(u) && #[trigger] is_move(g, u, t) implies post.edge_ok(
            g,
            c,
            u,
            t,
        ) by {
            let d = post.cost(u) + move_cost(c, u, t);
            let x = (d as u128, Arrival { at: t, from: Some(u) });
            if u == at {
                lemma_moves(g, at, t);
                assert(is_successor(g, c, e, x));
                assert(post.pending(x));
            } else {
                assert(pre.settled(u));
                assert(pre.edge_ok(g, c, u, t));
                if pre.pending(x) {
                    if x == e {
                        assert(post.settled(t));
                        assert(pre.entry_ok(g, c, e));
                    } else {
                        assert(pre.queue@.remove(e).count(x) > 0);
                        assert(post.pending(x));
                    }
                } else {
                    assert(pre.settled(t));
                    assert(t != at);
                }
            }
        }
        assert(post.origin_ok(g)) by {
            let x = (0u128, Arrival { at: origin(g), from: None });
            if pre.pending(x) {
                if x == e {
                } else {
                    assert(pre.queue@.remove(e).count(x) > 0);
                    assert(post.pending(x));
                }
            } else {
                assert(origin(g) != at);
            }
        }
    }

    /// A frontier on which only the origin waits, at cost 0. With a limit,
    /// nothing dearer than the limit will be settled.
    pub fn new(grid: &Grid, costs: CostModel, limit: Option<u128>) -> (f: Frontier)
        ensures
            f.inv(grid@, costs),
            f.limit() == limit,
            f.count() == 0,
            forall|s: Pose| !f.settled(s),
    {
        let cells = grid.area();
        let best: StateTable<Option<u128>> = StateTable::new(grid.width(), grid.height(), cells, None);
        let links: StateTable<PredSet> = StateTable::new(
            grid.width(),
            grid.height(),
            cells,
            PredSet::none(),
        );
        let mut queue: MinQueue<Arrival> = MinQueue::new();
        let start = grid.start();
        let first = Arrival { at: Pose { x: start.0, y: start.1, dir: Direction::East }, from: None };
        queue.push(0, first);
        let f = Frontier { best, links, queue, limit };
        proof {
            reveal(Frontier::inv);
            lemma_origin_route(grid@, costs);
            
            assert(!is_settled_slot()(None::<u128>));
            assert(f.pending((0u128, first)));
            assert forall|e: (u128, Arrival)| #[trigger] f.pending(e) implies f.entry_ok(
                grid@,
                costs,
                e,
            ) by {
                assert(e == (0u128, first));
                assert(is_route_to(grid@, seq![origin(grid@)], origin(grid@)));
            }
        }
        f
    }

    /// Whether the pose is settled, and at what cost.
    pub fn lookup(&self, grid: &Grid, s: Pose) -> (r: Option<u128>)
        requires
            self.shape_ok(grid@),
        ensures
            match r {
                Some(d) => self.settled(s) && self.cost(s) == d,
                None => !self.settled(s),
            },
    {
        if s.x >= grid.width() || s.y >= grid.height() {
            return None;
        }
        self.best.read(s)
    }

    /// The predecessors recorded for a pose of the grid.
    pub fn preds(&self, grid: &Grid, s: Pose) -> (r: PredSet)
        requires
            self.shape_ok(grid@),
            grid@.contains(s.x as int, s.y as int),
        ensures
            r.origin == self.from_origin(s),
            forall|k: Link| r.flag(k) == self.flagged(s, k),
    {
        self.links.read(s)
    }

    /// What holds of an entry that waits in the queue: it is no cheaper
    /// than any settled pose.
    proof fn lemma_entry(&self, g: Maze, c: CostModel, e: (u128, Arrival))
        requires
            self.inv(g, c),
            self.pending(e),
        ensures
            self.entry_ok(g, c, e),
            forall|s: Pose| #[trigger] self.settled(s) ==> self.cost(s) <= e.0,
    {
        reveal(Frontier::inv);
        assert forall|s: Pose| #[trigger] self.settled(s) implies self.cost(s) <= e.0 by {
            assert(self.pending(e) && self.settled(s));
        }
    }

    /// The invariant fixes the shape of the tables.
    pub proof fn lemma_shape(&self, g: Maze, c: CostModel)
        requires
            self.inv(g, c),
        ensures
            self.shape_ok(g),
            g.valid(),
            forall|s: Pose| #[trigger] self.settled(s) ==> g.contains(s.x as int, s.y as int),
    {
        reveal(Frontier::inv);
    }

    /// Takes note of an entry whose pose was settled before: where the
    /// entry meets the settled cost, its predecessor joins those recorded.
    fn relink(&mut self, grid: &Grid, costs: CostModel, Ghost(pre): Ghost<Frontier>, d: u128, a: Arrival)
        requires
            pre.inv(grid@, costs),
            pre.pending((d, a)),
            pre.settled(a.at),
            old(self).best == pre.best,
            old(self).links == pre.links,
            old(self).limit == pre.limit,
            old(self).queue.wf(),
            old(self).queue@ == pre.queue@.remove((d, a)),
        ensures
            final(self).inv(grid@, costs),
            final(self).best == pre.best,
            final(self).limit == pre.limit,
            final(self).queue == old(self).queue,
    {
        let at = a.at;
        proof {
            pre.lemma_shape(grid@, costs);
        }
        let b = self.best.read(at);
        if b == Some(d) {
            let marks = self.links.read(at).mark(at, a.from);
            self.links.write(at, marks);
        }
        proof {
            assert(Self::skip_step(pre, *self, grid@, (d, a)));
            Self::lemma_skip(pre, *self, grid@, costs, (d, a));
        }
    }

    /// Settles the pose of an entry that has just left the queue, and lets
    /// the poses one move after it wait in the queue.
    fn settle(&mut self, grid: &Grid, costs: CostModel, Ghost(pre): Ghost<Frontier>, d: u128, a: Arrival)
        requires
            pre.inv(grid@, costs),
            pre.pending((d, a)),
            !pre.settled(a.at),
            forall|x: (u128, Arrival)| #[trigger] pre.pending(x) ==> d <= x.0,
            pre.within(d as nat),
            old(self).best == pre.best,
            old(self).links == pre.links,
            old(self).limit == pre.limit,
            old(self).queue.wf(),
            old(self).queue@ == pre.queue@.remove((d, a)),
        ensures
            final(self).inv(grid@, costs),
            final(self).limit == pre.limit,
            final(self).settled(a.at),
            final(self).cost(a.at) == d,
            final(self).count() == pre.count() + 1,
            forall|q: Pose|
                pre.settled(q) ==> #[trigger] final(self).settled(q) && final(self).cost(q)
                    == pre.cost(q),
            forall|q: Pose| #[trigger] final(self).settled(q) ==> pre.settled(q) || q == a.at,
    {
        let at = a.at;
        let ghost e = (d, a);
        proof {
            pre.lemma_entry(grid@, costs, e);
            pre.lemma_shape(grid@, costs);
            pre.lemma_count(grid@, costs);
            
            assert(pre.count() * costs.dearest() <= 4 * 0xFFFF_FFFF_FFFF_FFFF * 0xFFFF_FFFF)
                by (nonlinear_arith)
                requires
                    pre.count() <= 4 * grid@.width() * grid@.height(),
                    grid@.width() * grid@.height() <= 0xFFFF_FFFF_FFFF_FFFF,
                    costs.dearest() <= 0xFFFF_FFFF,
            ;
        }
        self.best.write(at, Some(d));
        self.links.write(at, PredSet::none().mark(at, a.from));
        let here = Some(at);
        let ghost q0 = self.queue@;
        let left = Arrival { at: Pose { x: at.x, y: at.y, dir: at.dir.turn_left() }, from: here };
        let right = Arrival { at: Pose { x: at.x, y: at.y, dir: at.dir.turn_right() }, from: here };
        self.queue.push(d + costs.turn as u128, left);
        self.queue.push(d + costs.turn as u128, right);
        let ghost q2 = self.queue@;
        let forward = step_forward(grid, at);
        match forward {
            Some(b) => {
                self.queue.push(d + costs.step as u128, Arrival { at: b, from: here });
            },
            None => {},
        }
        proof {
            assert(is_settled_slot()(Some(d)));
            assert(!is_settled_slot()(None::<u128>));
            assert(self.count() == pre.count() + 1);
            let ghost el = ((d + costs.turn) as u128, left);
            let ghost er = ((d + costs.turn) as u128, right);
            assert(q2 == q0.insert(el).insert(er));
            assert forall|x: (u128, Arrival)| #[trigger] self.pending(x) <==> (pre.queue@.remove(
                e,
            ).count(x) > 0 || is_successor(grid@, costs, e, x)) by {
                match forward {
                    Some(b) => {
                        let ef = ((d + costs.step) as u128, Arrival { at: b, from: here });
                        assert(self.queue@ == q2.insert(ef));
                    },
                    None => {
                        assert(self.queue@ == q2);
                    },
                }
            }
            assert(Self::settle_step(pre, *self, grid@, costs, e));
            Self::lemma_settle(pre, *self, grid@, costs, e);
        }
    }

    /// Settles the cheapest pose that is waiting and not yet settled, and
    /// returns it with its cost. Returns `None`, and settles nothing, once
    /// every waiting entry costs more than the limit.
    pub fn advance(&mut self, grid: &Grid, costs: CostModel) -> (r: Option<(u128, Pose)>)
        requires
            old(self).inv(grid@, costs),
        ensures
            final(self).inv(grid@, costs),
            final(self).limit() == old(self).limit(),
            forall|q: Pose|
                old(self).settled(q) ==> #[trigger] final(self).settled(q) && final(self).cost(q)
                    == old(self).cost(q),
            match r {
                None => {
                    &&& final(self).drained()
                    &&& final(self).count() == old(self).count()
                    &&& forall|q: Pose| #[trigger] final(self).settled(q) ==> old(self).settled(q)
                },
                Some((d, s)) => {
                    &&& !old(self).settled(s)
                    &&& final(self).settled(s)
                    &&& final(self).cost(s) == d
                    &&& final(self).count() == old(self).count() + 1
                    &&& forall|q: Pose| #[trigger]
                        final(self).settled(q) ==> old(self).settled(q) || q == s
                },
            },
    {
        loop
            invariant
                self.inv(grid@, costs),
                self.limit == old(self).limit,
                self.best == old(self).best,
            decreases self.queue@.len(),
        {
            proof {
                self.lemma_shape(grid@, costs);
            }
            let top = self.queue.peek();
            match top {
                None => {
                    assert forall|e: (u128, Arrival)| #[trigger] self.pending(e) implies !self.within(
                        e.0 as nat,
                    ) by {
                        assert(self.queue@.len() == 0);
                        assert(self.queue@.count(e) > 0);
                        assert(self.queue@.remove(e).len() >= 0);
                    }
                    return None;
                },
                Some((d, _)) => {
                    match self.limit {
                        None => {},
                        Some(l) => {
                            if d > l {
                                return None;
                            }
                        },
                    }
                },
            }
            let ghost pre = *self;
            let popped = self.queue.pop();
            match popped {
                None => {
                    assert(false);
                    return None;
                },
                Some((d, a)) => {
                    proof {
                        assert(pre.pending((d, a)));
                        assert(pre.pending(top.unwrap()));
                        assert(d == top.unwrap().0);
                        assert(pre.within(d as nat));
                        pre.lemma_entry(grid@, costs, (d, a));
                        pre.lemma_shape(grid@, costs);
                    }
                    match self.best.read(a.at) {
                        Some(b) => {
                            self.relink(grid, costs, Ghost(pre), d, a);
                        },
                        None => {
                            self.settle(grid, costs, Ghost(pre), d, a);
                            return Some((d, a.at));
                        },
                    }
                },
            }
        }
    }
}

} // verus!
