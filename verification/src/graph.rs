//! Weighted directed graphs on numbered nodes, and the cheapest walks from
//! one node to all others.

use vstd::prelude::*;
use crate::queue::MinQueue;
use crate::text::views;

verus! {

/// Some edge leads from `a` to `b`.
pub open spec fn arc(g: Seq<Seq<(usize, u32)>>, a: int, b: int) -> bool {
    0 <= a < g.len() && exists|k: int| 0 <= k < g[a].len() && (#[trigger] g[a][k]).0 == b
}

/// What the edge from `a` to `b` costs.
pub open spec fn toll(g: Seq<Seq<(usize, u32)>>, a: int, b: int) -> nat {
    let k = choose|k: int| 0 <= k < g[a].len() && (#[trigger] g[a][k]).0 == b;
    g[a][k].1 as nat
}

/// Every edge ends in a node of the graph, and two edges between the same
/// nodes cost the same.
pub open spec fn graph_ok(g: Seq<Seq<(usize, u32)>>) -> bool {
    &&& forall|a: int, k: int|
        0 <= a < g.len() && 0 <= k < g[a].len() ==> (#[trigger] g[a][k]).0 < g.len()
    &&& forall|a: int, k1: int, k2: int|
        0 <= a < g.len() && 0 <= k1 < g[a].len() && 0 <= k2 < g[a].len() && (#[trigger] g[a][k1]).0
            == (#[trigger] g[a][k2]).0 ==> g[a][k1].1 == g[a][k2].1
}

/// In a well-formed graph, the `k`-th edge of `a` is an arc, and its weight
/// is the toll.
pub proof fn lemma_edge(g: Seq<Seq<(usize, u32)>>, a: int, k: int)
    requires
        graph_ok(g),
        0 <= a < g.len(),
        0 <= k < g[a].len(),
    ensures
        arc(g, a, g[a][k].0 as int),
        toll(g, a, g[a][k].0 as int) == g[a][k].1,
        g[a][k].0 < g.len(),
{
    let b = g[a][k].0 as int;
    assert(g[a][k].0 == b);
    let k2 = choose|k2: int| 0 <= k2 < g[a].len() && (#[trigger] g[a][k2]).0 == b;
    assert(g[a][k2].1 == g[a][k].1);
}

/// A walk is a non-empty sequence of nodes, each joined to the next by an
/// edge.
pub open spec fn is_walk(g: Seq<Seq<(usize, u32)>>, p: Seq<usize>) -> bool {
    &&& p.len() > 0
    &&& p[0] < g.len()
    &&& forall|i: int| 0 <= i < p.len() - 1 ==> arc(g, #[trigger] p[i] as int, p[i + 1] as int)
}

/// The sum of the tolls along a walk.
pub open spec fn walk_cost(g: Seq<Seq<(usize, u32)>>, p: Seq<usize>) -> nat
    decreases p.len(),
{
    if p.len() <= 1 {
        0
    } else {
        walk_cost(g, p.drop_last()) + toll(g, p[p.len() - 2] as int, p.last() as int)
    }
}

/// `p` is a walk from `s` to `t`.
pub open spec fn is_walk_to(g: Seq<Seq<(usize, u32)>>, s: usize, p: Seq<usize>, t: usize) -> bool {
    is_walk(g, p) && p[0] == s && p.last() == t
}

/// Some walk from `s` to `t` costs exactly `d`.
pub open spec fn walkable_at(g: Seq<Seq<(usize, u32)>>, s: usize, t: usize, d: nat) -> bool {
    exists|p: Seq<usize>| #[trigger] is_walk_to(g, s, p, t) && walk_cost(g, p) == d
}

/// `d` is the least cost of any walk from `s` to `t`.
pub open spec fn is_least(g: Seq<Seq<(usize, u32)>>, s: usize, t: usize, d: nat) -> bool {
    &&& walkable_at(g, s, t, d)
    &&& forall|p: Seq<usize>| #[trigger] is_walk_to(g, s, p, t) ==> d <= walk_cost(g, p)
}

/// No walk leads from `s` to `t`.
pub open spec fn cut_off(g: Seq<Seq<(usize, u32)>>, s: usize, t: usize) -> bool {
    forall|p: Seq<usize>| !#[trigger] is_walk_to(g, s, p, t)
}

pub proof fn lemma_walk_push(g: Seq<Seq<(usize, u32)>>, p: Seq<usize>, t: usize)
    requires
        is_walk(g, p),
        arc(g, p.last() as int, t as int),
    ensures
        is_walk(g, p.push(t)),
        walk_cost(g, p.push(t)) == walk_cost(g, p) + toll(g, p.last() as int, t as int),
{
    let q = p.push(t);
    assert(q.drop_last() =~= p);
    assert forall|i: int| 0 <= i < q.len() - 1 implies arc(g, #[trigger] q[i] as int, q[i + 1] as int) by {
        if i < p.len() - 1 {
            assert(arc(g, p[i] as int, p[i + 1] as int));
        }
    }
}

pub proof fn lemma_walk_prefix(g: Seq<Seq<(usize, u32)>>, p: Seq<usize>, n: int)
    requires
        is_walk(g, p),
        1 <= n <= p.len(),
    ensures
        is_walk(g, p.take(n)),
        walk_cost(g, p.take(n)) <= walk_cost(g, p),
        n < p.len() ==> walk_cost(g, p.take(n + 1)) == walk_cost(g, p.take(n)) + toll(
            g,
            p[n - 1] as int,
            p[n] as int,
        ),
    decreases p.len() - n,
{
    let q = p.take(n);
    assert forall|i: int| 0 <= i < q.len() - 1 implies arc(g, #[trigger] q[i] as int, q[i + 1] as int) by {
        assert(arc(g, p[i] as int, p[i + 1] as int));
    }
    if n < p.len() {
        lemma_walk_prefix(g, p, n + 1);
        assert(p.take(n + 1).drop_last() =~= q);
    } else {
        assert(q =~= p);
    }
}

/// Two least costs of the same node are equal.
pub proof fn lemma_least_unique(g: Seq<Seq<(usize, u32)>>, s: usize, t: usize, d1: nat, d2: nat)
    requires
        is_least(g, s, t, d1),
        is_least(g, s, t, d2),
    ensures
        d1 == d2,
{
    let first = choose|p: Seq<usize>| #[trigger] is_walk_to(g, s, p, t) && walk_cost(g, p) == d1;
    let second = choose|p: Seq<usize>| #[trigger] is_walk_to(g, s, p, t) && walk_cost(g, p) == d2;
    assert(is_walk_to(g, s, first, t));
    assert(is_walk_to(g, s, second, t));
}

/// A graph on the nodes `0 .. n`, held as one list of edges per node.
pub struct Graph {
    adj: Vec<Vec<(usize, u32)>>,
}

impl View for Graph {
    type V = Seq<Seq<(usize, u32)>>;

    closed spec fn view(&self) -> Seq<Seq<(usize, u32)>> {
        views(self.adj@)
    }
}

impl Graph {
    /// A graph of `n` nodes without edges.
    pub fn new(n: usize) -> (g: Graph)
        ensures
            g@.len() == n,
            forall|a: int| 0 <= a < n ==> (#[trigger] g@[a]).len() == 0,
            graph_ok(g@),
    {
        let mut adj: Vec<Vec<(usize, u32)>> = Vec::new();
        let mut i: usize = 0;
        while i < n
            invariant
                i <= n,
                adj.len() == i,
                forall|a: int| 0 <= a < i ==> (#[trigger] adj@[a])@.len() == 0,
            decreases n - i,
        {
            adj.push(Vec::new());
            i += 1;
        }
        Graph { adj }
    }

    /// Number of nodes.
    pub fn nodes(&self) -> (n: usize)
        ensures
            n == self@.len(),
    {
        self.adj.len()
    }

    /// The edges that leave the node `a`.
    pub fn edges(&self, a: usize) -> (e: &Vec<(usize, u32)>)
        requires
            a < self@.len(),
        ensures
            e@ == self@[a as int],
    {
        &self.adj[a]
    }

    /// Adds an edge from `a` to `b` of weight `w`.
    pub fn add_edge(&mut self, a: usize, b: usize, w: u32)
        requires
            graph_ok(old(self)@),
            a < old(self)@.len(),
            b < old(self)@.len(),
            arc(old(self)@, a as int, b as int) ==> toll(old(self)@, a as int, b as int) == w,
        ensures
            graph_ok(final(self)@),
            final(self)@ == old(self)@.update(a as int, old(self)@[a as int].push((b, w))),
    {
        let ghost g0 = self@;
        let mut row: Vec<(usize, u32)> = Vec::new();
        self.adj.set_and_swap(a, &mut row);
        row.push((b, w));
        self.adj.set(a, row);
        proof {
            let g1 = self@;
            assert(g1 =~= g0.update(a as int, g0[a as int].push((b, w))));
            assert forall|x: int, k1: int, k2: int|
                0 <= x < g1.len() && 0 <= k1 < g1[x].len() && 0 <= k2 < g1[x].len() && (
                #[trigger] g1[x][k1]).0 == (#[trigger] g1[x][k2]).0 implies g1[x][k1].1 == g1[x][k2].1 by {
                if x == a {
                    let n = g0[a as int].len() as int;
                    if k1 < n && k2 < n {
                        assert(g0[x][k1].0 == g0[x][k2].0);
                    } else if k1 < n {
                        lemma_edge(g0, a as int, k1);
                    } else if k2 < n {
                        lemma_edge(g0, a as int, k2);
                    }
                } else {
                    assert(g0[x][k1].0 == g0[x][k2].0);
                }
            }
            assert forall|x: int, k: int| 0 <= x < g1.len() && 0 <= k < g1[x].len() implies (
            #[trigger] g1[x][k]).0 < g1.len() by {
                if x == a && k == g0[a as int].len() {
                } else {
                    assert(g0[x][k].0 < g0.len());
                }
            }
        }
    }
}

/// How many of the slots are filled.
pub open spec fn filled(s: Seq<Option<u128>>) -> nat
    decreases s.len(),
{
    if s.len() == 0 {
        0
    } else {
        filled(s.drop_last()) + if s.last() is Some {
            1nat
        } else {
            0nat
        }
    }
}

pub proof fn lemma_filled_bound(s: Seq<Option<u128>>)
    ensures
        filled(s) <= s.len(),
    decreases s.len(),
{
    if s.len() > 0 {
        lemma_filled_bound(s.drop_last());
    }
}

pub proof fn lemma_filled_update(s: Seq<Option<u128>>, i: int, v: u128)
    requires
        0 <= i < s.len(),
        s[i] is None,
    ensures
        filled(s.update(i, Some(v))) == filled(s) + 1,
    decreases s.len(),
{
    let t = s.update(i, Some(v));
    if i == s.len() - 1 {
        assert(t.drop_last() =~= s.drop_last());
    } else {
        assert(t.drop_last() =~= s.drop_last().update(i, Some(v)));
        lemma_filled_update(s.drop_last(), i, v);
    }
}

/// A node waiting in the queue, with the node it was reached from.
#[derive(Clone, Copy, Debug, PartialEq, Eq, Structural)]
pub struct Hop {
    pub at: usize,
    pub from: Option<usize>,
}

/// The state of a cheapest-first expansion from one source.
pub struct Expansion {
    source: usize,
    best: Vec<Option<u128>>,
    parent: Vec<Option<usize>>,
    order: Vec<usize>,
    queue: MinQueue<Hop>,
}

impl Expansion {
    pub closed spec fn source(&self) -> usize {
        self.source
    }

    /// The node has been settled.
    pub closed spec fn settled(&self, v: int) -> bool {
        0 <= v < self.best.len() && self.best@[v] is Some
    }

    /// The cost at which a settled node was settled.
    pub closed spec fn cost(&self, v: int) -> nat {
        self.best@[v].unwrap() as nat
    }

    /// The node from which a settled node was settled.
    pub closed spec fn parent(&self, v: int) -> Option<usize> {
        self.parent@[v]
    }

    /// The position of a settled node in the order of settling.
    pub closed spec fn order(&self, v: int) -> nat {
        self.order@[v] as nat
    }

    pub closed spec fn count(&self) -> nat {
        filled(self.best@)
    }

    pub closed spec fn pending(&self, e: (u128, Hop)) -> bool {
        self.queue@.count(e) > 0
    }

    pub closed spec fn shape_ok(&self, g: Seq<Seq<(usize, u32)>>) -> bool {
        &&& graph_ok(g)
        &&& self.source < g.len()
        &&& self.best.len() == g.len()
        &&& self.parent.len() == g.len()
        &&& self.order.len() == g.len()
        &&& self.queue.wf()
    }

    pub closed spec fn entry_ok(&self, g: Seq<Seq<(usize, u32)>>, e: (u128, Hop)) -> bool {
        &&& e.1.at < g.len()
        &&& walkable_at(g, self.source, e.1.at, e.0 as nat)
        &&& e.0 <= self.count() * 0xffff_ffff
        &&& match e.1.from {
            None => e.1.at == self.source && e.0 == 0,
            Some(u) => self.settled(u as int) && arc(g, u as int, e.1.at as int) && self.cost(u as int)
                + toll(g, u as int, e.1.at as int) == e.0,
        }
    }

    pub closed spec fn settled_ok(&self, g: Seq<Seq<(usize, u32)>>, v: int) -> bool {
        &&& is_least(g, self.source, v as usize, self.cost(v))
        &&& self.order(v) < self.count()
        &&& match self.parent(v) {
            None => v == self.source && self.cost(v) == 0,
            Some(u) => self.settled(u as int) && arc(g, u as int, v) && self.cost(u as int) + toll(
                g,
                u as int,
                v,
            ) == self.cost(v) && self.order(u as int) < self.order(v),
        }
    }

    pub closed spec fn edge_ok(&self, g: Seq<Seq<(usize, u32)>>, u: int, t: int) -> bool {
        let d = self.cost(u) + toll(g, u, t);
        ||| self.pending((d as u128, Hop { at: t as usize, from: Some(u as usize) }))
        ||| (self.settled(t) && self.cost(t) <= d)
    }

    pub closed spec fn origin_ok(&self) -> bool {
        ||| self.pending((0u128, Hop { at: self.source, from: None }))
        ||| (self.settled(self.source as int) && self.cost(self.source as int) == 0)
    }

    /// What holds of an expansion between any two steps.
    #[verifier::opaque]
    pub closed spec fn inv(&self, g: Seq<Seq<(usize, u32)>>) -> bool {
        &&& self.shape_ok(g)
        &&& forall|e: (u128, Hop)| #[trigger] self.pending(e) ==> self.entry_ok(g, e)
        &&& forall|e: (u128, Hop), v: int| #[trigger]
            self.pending(e) && #[trigger] self.settled(v) ==> self.cost(v) <= e.0
        &&& forall|v: int| #[trigger] self.settled(v) ==> self.settled_ok(g, v)
        &&& forall|u: int, t: int| self.settled(u) && #[trigger] arc(g, u, t) ==> self.edge_ok(g, u, t)
        &&& self.origin_ok()
    }

    proof fn lemma_shape(&self, g: Seq<Seq<(usize, u32)>>)
        requires
            self.inv(g),
        ensures
            self.shape_ok(g),
            self.count() <= g.len(),
    {
        reveal(Expansion::inv);
        lemma_filled_bound(self.best@);
    }

    proof fn lemma_entry(&self, g: Seq<Seq<(usize, u32)>>, e: (u128, Hop))
        requires
            self.inv(g),
            self.pending(e),
        ensures
            self.entry_ok(g, e),
            forall|v: int| #[trigger] self.settled(v) ==> self.cost(v) <= e.0,
    {
        reveal(Expansion::inv);
        assert forall|v: int| #[trigger] self.settled(v) implies self.cost(v) <= e.0 by {
            assert(self.pending(e) && self.settled(v));
        }
    }

    /// Whatever walk leads to a node that is not settled, an entry waits
    /// that costs no more than the walk.
    proof fn lemma_pending(&self, g: Seq<Seq<(usize, u32)>>, p: Seq<usize>, t: usize)
        requires
            self.inv(g),
            is_walk_to(g, self.source, p, t),
            !self.settled(t as int),
        ensures
            exists|e: (u128, Hop)| #[trigger] self.pending(e) && e.0 <= walk_cost(g, p),
        decreases p.len(),
    {
        reveal(Expansion::inv);
        if p.len() == 1 {
            let e = (0u128, Hop { at: self.source, from: None });
            assert(self.pending(e));
        } else {
            let n = p.len() - 1;
            let q = p.take(n);
            let u = q.last();
            lemma_walk_prefix(g, p, n);
            assert(p.take(n + 1) =~= p);
            assert(is_walk_to(g, self.source, q, u));
            assert(arc(g, p[n - 1] as int, p[n] as int));
            if !self.settled(u as int) {
                self.lemma_pending(g, q, u);
                let e = choose|e: (u128, Hop)| #[trigger] self.pending(e) && e.0 <= walk_cost(g, q);
                assert(self.pending(e) && e.0 <= walk_cost(g, p));
            } else {
                assert(self.settled_ok(g, u as int));
                assert(self.edge_ok(g, u as int, t as int));
                let d = self.cost(u as int) + toll(g, u as int, t as int);
                let e = (d as u128, Hop { at: t, from: Some(u) });
                assert(self.pending(e));
                assert(self.entry_ok(g, e));
            }
        }
    }

    /// `post` is `pre` after the entry `e` has left the queue without any
    /// other change.
    pub closed spec fn skip_step(pre: Expansion, post: Expansion, e: (u128, Hop)) -> bool {
        &&& post.source == pre.source
        &&& post.best == pre.best
        &&& post.parent == pre.parent
        &&& post.order == pre.order
        &&& post.queue.wf()
        &&& post.queue@ == pre.queue@.remove(e)
    }

    proof fn lemma_skip_entries(pre: Expansion, post: Expansion, g: Seq<Seq<(usize, u32)>>, e: (u128, Hop))
        requires
            pre.inv(g),
            Self::skip_step(pre, post, e),
        ensures
            forall|x: (u128, Hop)| #[trigger] post.pending(x) ==> post.entry_ok(g, x),
            forall|x: (u128, Hop), v: int| #[trigger]
                post.pending(x) && #[trigger] post.settled(v) ==> post.cost(v) <= x.0,
            forall|v: int| #[trigger] post.settled(v) ==> post.settled_ok(g, v),
    {
        reveal(Expansion::inv);
        assert forall|x: (u128, Hop)| #[trigger] post.pending(x) implies post.entry_ok(g, x) by {
            assert(pre.pending(x));
            assert(pre.entry_ok(g, x));
        }
        assert forall|x: (u128, Hop), v: int| #[trigger]
            post.pending(x) && #[trigger] post.settled(v) implies post.cost(v) <= x.0 by {
            assert(pre.pending(x) && pre.settled(v));
        }
        assert forall|v: int| #[trigger] post.settled(v) implies post.settled_ok(g, v) by {
            assert(pre.settled(v));
            assert(pre.settled_ok(g, v));
        }
    }

    proof fn lemma_skip_edge(
        pre: Expansion,
        post: Expansion,
        g: Seq<Seq<(usize, u32)>>,
        e: (u128, Hop),
        u: int,
        t: int,
    )
        requires
            pre.inv(g),
            pre.pending(e) ==> pre.settled(e.1.at as int),
            Self::skip_step(pre, post, e),
            post.settled(u),
            arc(g, u, t),
        ensures
            post.edge_ok(g, u, t),
    {
        reveal(Expansion::inv);
        assert(pre.settled(u));
        assert(pre.edge_ok(g, u, t));
        let d = pre.cost(u) + toll(g, u, t);
        let x = (d as u128, Hop { at: t as usize, from: Some(u as usize) });
        if pre.pending(x) {
            if x == e {
                assert(pre.entry_ok(g, e));
                assert(pre.pending(e) && pre.settled(t));
                assert(pre.cost(t) <= e.0);
            } else {
                assert(post.queue@.count(x) == pre.queue@.count(x));
                assert(post.pending(x));
            }
        }
    }

    /// An entry whose node was settled before may leave the queue.
    proof fn lemma_skip(pre: Expansion, post: Expansion, g: Seq<Seq<(usize, u32)>>, e: (u128, Hop))
        requires
            pre.inv(g),
            pre.pending(e) ==> pre.settled(e.1.at as int),
            Self::skip_step(pre, post, e),
        ensures
            post.inv(g),
    {
        Self::lemma_skip_entries(pre, post, g, e);
        assert forall|u: int, t: int| post.settled(u) && #[trigger] arc(g, u, t) implies post.edge_ok(
            g,
            u,
            t,
        ) by {
            Self::lemma_skip_edge(pre, post, g, e, u, t);
        }
        reveal(Expansion::inv);
        assert(post.origin_ok()) by {
            let x = (0u128, Hop { at: pre.source, from: None });
            if pre.pending(x) {
                if x == e {
                    assert(pre.entry_ok(g, e));
                    assert(pre.pending(e) && pre.settled(e.1.at as int));
                } else {
                    assert(post.queue@.count(x) == pre.queue@.count(x));
                    assert(post.pending(x));
                }
            }
        }
        assert(post.shape_ok(g));
    }

    /// `x` is one of the entries that settling `e` adds to the queue.
    pub closed spec fn is_successor(g: Seq<Seq<(usize, u32)>>, e: (u128, Hop), x: (u128, Hop), n: int) -> bool {
        exists|k: int|
            0 <= k < n && k < g[e.1.at as int].len() && x == ((e.0 + (#[trigger] g[e.1.at as int][k]).1) as u128, Hop {
                at: g[e.1.at as int][k].0,
                from: Some(e.1.at),
            })
    }

    proof fn lemma_settle(pre: Expansion, post: Expansion, g: Seq<Seq<(usize, u32)>>, e: (u128, Hop))
        requires
            pre.inv(g),
            pre.pending(e),
            !pre.settled(e.1.at as int),
            forall|x: (u128, Hop)| #[trigger] pre.pending(x) ==> e.0 <= x.0,
            e.0 + 0xffff_ffff <= u128::MAX,
            post.shape_ok(g),
            post.source == pre.source,
            post.best@ == pre.best@.update(e.1.at as int, Some(e.0)),
            post.parent@ == pre.parent@.update(e.1.at as int, e.1.from),
            post.order@ == pre.order@.update(e.1.at as int, pre.count() as usize),
            pre.count() <= usize::MAX,
            forall|x: (u128, Hop)| #[trigger]
                post.pending(x) <==> (pre.queue@.remove(e).count(x) > 0 || Self::is_successor(
                    g,
                    e,
                    x,
                    g[e.1.at as int].len() as int,
                )),
        ensures
            post.inv(g),
            post.count() == pre.count() + 1,
    {
        reveal(Expansion::inv);
        let at = e.1.at as int;
        let s = pre.source;
        assert(pre.entry_ok(g, e));
        lemma_filled_update(pre.best@, at, e.0);
        let p = choose|p: Seq<usize>| #[trigger] is_walk_to(g, s, p, e.1.at) && walk_cost(g, p) == e.0;
        assert(is_least(g, s, e.1.at, e.0 as nat)) by {
            assert forall|q: Seq<usize>| #[trigger] is_walk_to(g, s, q, e.1.at) implies e.0
                <= walk_cost(g, q) by {
                pre.lemma_pending(g, q, e.1.at);
            }
        }
        assert forall|v: int| pre.settled(v) implies post.settled(v) && post.cost(v) == pre.cost(v)
            && post.parent(v) == pre.parent(v) && post.order(v) == pre.order(v) by {}
        assert forall|v: int| #[trigger] post.settled(v) implies pre.settled(v) || v == at by {}
        assert(post.settled(at) && post.cost(at) == e.0);
        assert(pre.count() * 0xffff_ffff + 0xffff_ffff == post.count() * 0xffff_ffff) by (nonlinear_arith)
            requires
                post.count() == pre.count() + 1,
        ;
        assert forall|x: (u128, Hop)| #[trigger] post.pending(x) implies post.entry_ok(g, x) by {
            if pre.queue@.remove(e).count(x) > 0 {
                assert(pre.pending(x));
                assert(pre.entry_ok(g, x));
            } else {
                let k = choose|k: int|
                    0 <= k < g[at].len() && x == ((e.0 + (#[trigger] g[at][k]).1) as u128, Hop {
                        at: g[at][k].0,
                        from: Some(e.1.at),
                    });
                lemma_edge(g, at, k);
                lemma_walk_push(g, p, x.1.at);
                assert(is_walk_to(g, s, p.push(x.1.at), x.1.at));
            }
        }
        assert forall|x: (u128, Hop), v: int| #[trigger]
            post.pending(x) && #[trigger] post.settled(v) implies post.cost(v) <= x.0 by {
            if pre.queue@.remove(e).count(x) > 0 {
                assert(pre.pending(x));
                if v != at {
                    assert(pre.settled(v));
                }
            } else {
                if v != at {
                    assert(pre.settled(v));
                    assert(pre.pending(e));
                    assert(pre.cost(v) <= e.0);
                }
            }
        }
        assert forall|v: int| #[trigger] post.settled(v) implies post.settled_ok(g, v) by {
            if v == at {
                match e.1.from {
                    None => {},
                    Some(u) => {
                        assert(pre.settled(u as int));
                        assert(pre.settled_ok(g, u as int));
                    },
                }
            } else {
                assert(pre.settled(v));
                assert(pre.settled_ok(g, v));
            }
        }
        assert forall|u: int, t: int| post.settled(u) && #[trigger] arc(g, u, t) implies post.edge_ok(
            g,
            u,
            t,
        ) by {
            let d = post.cost(u) + toll(g, u, t);
            let x = (d as u128, Hop { at: t as usize, from: Some(u as usize) });
            if u == at {
                let k = choose|k: int| 0 <= k < g[u].len() && (#[trigger] g[u][k]).0 == t;
                lemma_edge(g, u, k);
                assert(Self::is_successor(g, e, x, g[at].len() as int));
                assert(post.pending(x));
            } else {
                assert(pre.settled(u));
                assert(pre.edge_ok(g, u, t));
                if pre.pending(x) {
                    if x == e {
                        assert(post.settled(t));
                    } else {
                        assert(pre.queue@.remove(e).count(x) > 0);
                        assert(post.pending(x));
                    }
                } else {
                    assert(pre.settled(t));
                    assert(t != at);
                }
            }
        }
        assert(post.origin_ok()) by {
            let x = (0u128, Hop { at: pre.source, from: None });
            if pre.pending(x) {
                if x == e {
                } else {
                    assert(pre.queue@.remove(e).count(x) > 0);
                    assert(post.pending(x));
                }
            } else {
                assert(pre.source != at);
            }
        }
    }

    /// An expansion in which only the source waits, at cost 0.
    fn new(g: &Graph, source: usize) -> (x: Expansion)
        requires
            graph_ok(g@),
            source < g@.len(),
        ensures
            x.inv(g@),
            x.source() == source,
            x.count() == 0,
    {
        let n = g.nodes();
        let mut best: Vec<Option<u128>> = Vec::new();
        let mut parent: Vec<Option<usize>> = Vec::new();
        let mut order: Vec<usize> = Vec::new();
        let mut i: usize = 0;
        while i < n
            invariant
                i <= n,
                best.len() == i,
                parent.len() == i,
                order.len() == i,
                forall|k: int| 0 <= k < i ==> best@[k] is None,
                filled(best@) == 0,
            decreases n - i,
        {
            proof {
                assert(best@.push(None).drop_last() =~= best@);
            }
            best.push(None);
            parent.push(None);
            order.push(0);
            i += 1;
        }
        let mut queue: MinQueue<Hop> = MinQueue::new();
        let first = Hop { at: source, from: None };
        queue.push(0, first);
        let x = Expansion { source, best, parent, order, queue };
        proof {
            reveal(Expansion::inv);
            let p0 = seq![source];
            assert(is_walk_to(g@, source, p0, source));
            assert(walk_cost(g@, p0) == 0);
            assert(x.pending((0u128, first)));
            assert forall|e: (u128, Hop)| #[trigger] x.pending(e) implies x.entry_ok(g@, e) by {
                assert(e == (0u128, first));
            }
        }
        x
    }

    /// Settles the node of an entry that has just left the queue, and lets
    /// the nodes its edges lead to wait in the queue.
    fn settle(&mut self, g: &Graph, Ghost(pre): Ghost<Expansion>, d: u128, h: Hop)
        requires
            pre.inv(g@),
            pre.pending((d, h)),
            !pre.settled(h.at as int),
            forall|x: (u128, Hop)| #[trigger] pre.pending(x) ==> d <= x.0,
            old(self).source == pre.source,
            old(self).best == pre.best,
            old(self).parent == pre.parent,
            old(self).order == pre.order,
            old(self).queue.wf(),
            old(self).queue@ == pre.queue@.remove((d, h)),
        ensures
            final(self).inv(g@),
            final(self).source() == pre.source(),
            final(self).count() == pre.count() + 1,
    {
        let ghost e = (d, h);
        let at = h.at;
        proof {
            pre.lemma_entry(g@, e);
            pre.lemma_shape(g@);
            assert(pre.count() * 0xffff_ffff <= 0xffff_ffff_ffff_ffff * 0xffff_ffff) by (nonlinear_arith)
                requires
                    pre.count() <= 0xffff_ffff_ffff_ffff,
            ;
            lemma_filled_bound(pre.best@);
            assert(filled(pre.best@) < pre.best@.len()) by {
                lemma_filled_update(pre.best@, at as int, d);
                lemma_filled_bound(pre.best@.update(at as int, Some(d)));
            }
        }
        let rank = count_filled(&self.best);
        self.best.set(at, Some(d));
        self.parent.set(at, h.from);
        self.order.set(at, rank);
        let edges = g.edges(at);
        let ghost q0 = self.queue@;
        let mut k: usize = 0;
        while k < edges.len()
            invariant
                k <= edges.len(),
                edges@ == g@[at as int],
                at == h.at,
                e == (d, h),
                self.queue.wf(),
                self.source == pre.source,
                self.best@ == pre.best@.update(at as int, Some(d)),
                self.parent@ == pre.parent@.update(at as int, h.from),
                self.order@ == pre.order@.update(at as int, pre.count() as usize),
                d + 0xffff_ffff <= u128::MAX,
                forall|x: (u128, Hop)| #[trigger]
                    self.pending(x) <==> (q0.count(x) > 0 || Self::is_successor(g@, e, x, k as int)),
            decreases edges.len() - k,
        {
            let (b, w) = edges[k];
            let ghost qk = self.queue@;
            let ghost before = *self;
            let ghost y = ((d + w) as u128, Hop { at: b, from: Some(at) });
            self.queue.push(d + w as u128, Hop { at: b, from: Some(at) });
            proof {
                assert(self.queue@ == qk.insert(y));
                assert forall|x: (u128, Hop)| #[trigger]
                    self.pending(x) <==> (q0.count(x) > 0 || Self::is_successor(g@, e, x, k + 1)) by {
                    assert(before.pending(x) <==> (q0.count(x) > 0 || Self::is_successor(
                        g@,
                        e,
                        x,
                        k as int,
                    )));
                    assert(self.pending(x) <==> (before.pending(x) || x == y));
                    if Self::is_successor(g@, e, x, k + 1) {
                        let j = choose|j: int|
                            0 <= j < k + 1 && j < g@[at as int].len() && x == ((d + (
                            #[trigger] g@[at as int][j]).1) as u128, Hop {
                                at: g@[at as int][j].0,
                                from: Some(at),
                            });
                        if j < k {
                            assert(Self::is_successor(g@, e, x, k as int));
                        } else {
                            assert(g@[at as int][j] == (b, w));
                            assert(x == y);
                        }
                    }
                    if Self::is_successor(g@, e, x, k as int) {
                        let j = choose|j: int|
                            0 <= j < k && j < g@[at as int].len() && x == ((d + (
                            #[trigger] g@[at as int][j]).1) as u128, Hop {
                                at: g@[at as int][j].0,
                                from: Some(at),
                            });
                        assert(Self::is_successor(g@, e, x, k + 1));
                    }
                    if x == y {
                        assert(g@[at as int][k as int] == (b, w));
                        assert(Self::is_successor(g@, e, x, k + 1));
                    }
                }
            }
            k += 1;
        }
        proof {
            Self::lemma_settle(pre, *self, g@, e);
        }
    }

    /// Runs the expansion until nothing waits.
    fn exhaust(&mut self, g: &Graph)
        requires
            old(self).inv(g@),
        ensures
            final(self).inv(g@),
            final(self).source() == old(self).source(),
            forall|e: (u128, Hop)| !final(self).pending(e),
    {
        loop
            invariant
                self.inv(g@),
                self.source() == old(self).source(),
            decreases g@.len() - self.count(), self.queue@.len(),
        {
            proof {
                self.lemma_shape(g@);
            }
            let ghost pre = *self;
            match self.queue.pop() {
                None => {
                    proof {
                        let e0 = (0u128, Hop { at: 0, from: None });
                        assert(pre.queue@.len() == 0);
                        assert(!pre.pending(e0)) by {
                            if pre.pending(e0) {
                                assert(pre.queue@.remove(e0).len() >= 0);
                            }
                        }
                        assert(pre.queue@.remove(e0) =~= pre.queue@);
                        Self::lemma_skip(pre, *self, g@, e0);
                        assert forall|e: (u128, Hop)| !self.pending(e) by {
                            if self.pending(e) {
                                assert(self.queue@.remove(e).len() >= 0);
                            }
                        }
                    }
                    return ;
                },
                Some((d, h)) => {
                    proof {
                        pre.lemma_entry(g@, (d, h));
                    }
                    if self.best[h.at].is_some() {
                        proof {
                            Self::lemma_skip(pre, *self, g@, (d, h));
                        }
                    } else {
                        self.settle(g, Ghost(pre), d, h);
                        proof {
                            self.lemma_shape(g@);
                        }
                    }
                },
            }
        }
    }
}

/// A walk can be entered from a node that has an edge to its first node.
pub proof fn lemma_walk_prepend(g: Seq<Seq<(usize, u32)>>, u: usize, p: Seq<usize>)
    requires
        is_walk(g, p),
        arc(g, u as int, p[0] as int),
    ensures
        is_walk(g, seq![u] + p),
        walk_cost(g, seq![u] + p) == toll(g, u as int, p[0] as int) + walk_cost(g, p),
    decreases p.len(),
{
    let q = seq![u] + p;
    assert forall|i: int| 0 <= i < q.len() - 1 implies arc(g, #[trigger] q[i] as int, q[i + 1] as int) by {
        if i > 0 {
            assert(arc(g, p[i - 1] as int, p[i] as int));
        }
    }
    if p.len() == 1 {
        assert(q.drop_last() =~= seq![u]);
        assert(walk_cost(g, seq![u]) == 0);
    } else {
        let r = p.drop_last();
        assert(q.drop_last() =~= seq![u] + r);
        assert forall|i: int| 0 <= i < r.len() - 1 implies arc(g, #[trigger] r[i] as int, r[i + 1] as int) by {
            assert(arc(g, p[i] as int, p[i + 1] as int));
        }
        lemma_walk_prepend(g, u, r);
    }
}

impl Expansion {
    /// The expansion from `s` has run until nothing was left to settle.
    pub closed spec fn complete(&self, g: Seq<Seq<(usize, u32)>>, s: usize) -> bool {
        &&& self.inv(g)
        &&& self.source == s
        &&& forall|e: (u128, Hop)| !self.pending(e)
    }

    /// What a complete expansion has found: the least cost of every node
    /// that a walk leads to, and no cost for any other node.
    pub proof fn lemma_complete(&self, g: Seq<Seq<(usize, u32)>>, s: usize, v: usize)
        requires
            self.complete(g, s),
            v < g.len(),
        ensures
            self.settled(v as int) ==> is_least(g, s, v, self.cost(v as int)),
            !self.settled(v as int) ==> cut_off(g, s, v),
    {
        reveal(Expansion::inv);
        if self.settled(v as int) {
            assert(self.settled_ok(g, v as int));
        } else {
            assert forall|p: Seq<usize>| !#[trigger] is_walk_to(g, s, p, v) by {
                if is_walk_to(g, s, p, v) {
                    self.lemma_pending(g, p, v);
                }
            }
        }
    }

    /// A settled node other than the source was settled from a node that
    /// was settled before it and lies one edge before it on a cheapest
    /// walk.
    pub proof fn lemma_parent(&self, g: Seq<Seq<(usize, u32)>>, v: int)
        requires
            self.complete(g, self.source()),
            self.settled(v),
        ensures
            match self.parent(v) {
                None => v == self.source() && self.cost(v) == 0,
                Some(u) => self.settled(u as int) && arc(g, u as int, v) && self.cost(u as int)
                    + toll(g, u as int, v) == self.cost(v) && self.order(u as int) < self.order(v),
            },
    {
        reveal(Expansion::inv);
        assert(self.settled_ok(g, v));
    }

    /// The least cost of a walk from the source to `v`, if there is a walk.
    pub fn distance(&self, g: &Graph, v: usize) -> (r: Option<u128>)
        requires
            self.complete(g@, self.source()),
            v < g@.len(),
        ensures
            match r {
                Some(d) => is_least(g@, self.source(), v, d as nat),
                None => cut_off(g@, self.source(), v),
            },
    {
        proof {
            self.lemma_shape(g@);
            self.lemma_complete(g@, self.source, v);
        }
        self.best[v]
    }

    /// A cheapest walk from the source to `v`, if there is a walk.
    pub fn path_to(&self, g: &Graph, v: usize) -> (r: Option<Vec<usize>>)
        requires
            self.complete(g@, self.source()),
            v < g@.len(),
        ensures
            match r {
                Some(p) => is_walk_to(g@, self.source(), p@, v) && is_least(
                    g@,
                    self.source(),
                    v,
                    walk_cost(g@, p@),
                ),
                None => cut_off(g@, self.source(), v),
            },
    {
        proof {
            self.lemma_shape(g@);
            self.lemma_complete(g@, self.source, v);
        }
        if self.best[v].is_none() {
            return None;
        }
        let mut rev: Vec<usize> = Vec::new();
        rev.push(v);
        let mut cur: usize = v;
        proof {
            assert(rev@.reverse() =~= seq![v]);
            assert(is_walk(g@, seq![v]));
            assert(walk_cost(g@, seq![v]) == 0);
        }
        loop
            invariant
                self.complete(g@, self.source()),
                self.shape_ok(g@),
                self.settled(cur as int),
                self.settled(v as int),
                rev@.len() > 0,
                is_walk(g@, rev@.reverse()),
                rev@.reverse()[0] == cur,
                rev@.reverse().last() == v,
                self.cost(cur as int) + walk_cost(g@, rev@.reverse()) == self.cost(v as int),
            ensures
                self.settled(v as int),
                is_walk_to(g@, self.source(), rev@.reverse(), v),
                walk_cost(g@, rev@.reverse()) == self.cost(v as int),
            decreases self.order(cur as int),
        {
            proof {
                self.lemma_parent(g@, cur as int);
            }
            match self.parent[cur] {
                None => {
                    break ;
                },
                Some(u) => {
                    proof {
                        lemma_walk_prepend(g@, u, rev@.reverse());
                        assert(rev@.push(u).reverse() =~= seq![u] + rev@.reverse());
                    }
                    rev.push(u);
                    cur = u;
                },
            }
        }
        let mut out: Vec<usize> = Vec::new();
        let mut i: usize = rev.len();
        while i > 0
            invariant
                i <= rev.len(),
                out@.len() == rev.len() - i,
                forall|k: int| 0 <= k < out@.len() ==> out@[k] == rev@[rev.len() - 1 - k],
            decreases i,
        {
            i -= 1;
            out.push(rev[i]);
        }
        assert(out@ =~= rev@.reverse());
        Some(out)
    }
}

/// The cheapest walks from `source` to every node of the graph.
pub fn shortest_paths(g: &Graph, source: usize) -> (x: Expansion)
    requires
        graph_ok(g@),
        source < g@.len(),
    ensures
        x.complete(g@, source),
        x.source() == source,
{
    let mut x = Expansion::new(g, source);
    x.exhaust(g);
    x
}

/// How many slots are filled.
fn count_filled(best: &Vec<Option<u128>>) -> (n: usize)
    ensures
        n == filled(best@),
{
    let mut n: usize = 0;
    let mut i: usize = 0;
    while i < best.len()
        invariant
            i <= best.len(),
            n == filled(best@.take(i as int)),
            n <= i,
        decreases best.len() - i,
    {
        proof {
            assert(best@.take(i + 1).drop_last() =~= best@.take(i as int));
        }
        if best[i].is_some() {
            n += 1;
        }
        i += 1;
    }
    assert(best@.take(best.len() as int) =~= best@);
    n
}


/// How the states of some domain are numbered as the nodes of a graph:
/// which states there are, the number of each, which state follows which in
/// one move, and what a move costs.
#[verifier::reject_recursive_types(N)]
pub ghost struct Coding<N> {
    pub valid: spec_fn(N) -> bool,
    pub index: spec_fn(N) -> int,
    pub step: spec_fn(N, N) -> bool,
    pub price: spec_fn(N, N) -> nat,
}

impl<N> Coding<N> {
    /// A run is a non-empty sequence of states, each followed by the next
    /// in one move.
    pub open spec fn is_run(self, p: Seq<N>) -> bool {
        &&& p.len() > 0
        &&& (self.valid)(p[0])
        &&& forall|i: int| 0 <= i < p.len() - 1 ==> (self.step)(#[trigger] p[i], p[i + 1])
    }

    /// The sum of the prices of a run's moves.
    pub open spec fn run_cost(self, p: Seq<N>) -> nat
        decreases p.len(),
    {
        if p.len() <= 1 {
            0
        } else {
            self.run_cost(p.drop_last()) + (self.price)(p[p.len() - 2], p.last())
        }
    }

    /// `p` is a run from `s` to `t`.
    pub open spec fn is_run_to(self, s: N, p: Seq<N>, t: N) -> bool {
        self.is_run(p) && p[0] == s && p.last() == t
    }

    /// `d` is the least cost of any run from `s` to `t`.
    pub open spec fn least_run(self, s: N, t: N, d: nat) -> bool {
        &&& exists|p: Seq<N>| #[trigger] self.is_run_to(s, p, t) && self.run_cost(p) == d
        &&& forall|p: Seq<N>| #[trigger] self.is_run_to(s, p, t) ==> d <= self.run_cost(p)
    }

    /// No run leads from `s` to `t`.
    pub open spec fn no_run(self, s: N, t: N) -> bool {
        forall|p: Seq<N>| !#[trigger] self.is_run_to(s, p, t)
    }

    /// The graph `g` has one node for every state, one edge for every move,
    /// and no other edge leaves the node of a state.
    pub open spec fn codes(self, g: Seq<Seq<(usize, u32)>>) -> bool {
        &&& graph_ok(g)
        &&& g.len() <= usize::MAX
        &&& forall|a: N| #[trigger] (self.valid)(a) ==> 0 <= (self.index)(a) < g.len()
        &&& forall|a: N, b: N|
            (self.valid)(a) && (self.valid)(b) && #[trigger] (self.index)(a) == #[trigger] (self.index)(
                b,
            ) ==> a == b
        &&& forall|a: N, b: N|
            (self.valid)(a) && #[trigger] (self.step)(a, b) ==> (self.valid)(b) && arc(
                g,
                (self.index)(a),
                (self.index)(b),
            ) && toll(g, (self.index)(a), (self.index)(b)) == (self.price)(a, b)
        &&& forall|a: N, j: int|
            (self.valid)(a) && #[trigger] arc(g, (self.index)(a), j) ==> exists|b: N|
                #[trigger] (self.step)(a, b) && (self.index)(b) == j
    }

    /// Every state of a run is valid.
    pub proof fn lemma_run_valid(self, g: Seq<Seq<(usize, u32)>>, p: Seq<N>, i: int)
        requires
            self.codes(g),
            self.is_run(p),
            0 <= i < p.len(),
        ensures
            (self.valid)(p[i]),
        decreases i,
    {
        if i > 0 {
            self.lemma_run_valid(g, p, i - 1);
            assert((self.step)(p[i - 1], p[i]));
        }
    }

    /// The numbers of a run's states form a walk of the same cost.
    pub proof fn lemma_run_walk(self, g: Seq<Seq<(usize, u32)>>, p: Seq<N>) -> (w: Seq<usize>)
        requires
            self.codes(g),
            self.is_run(p),
        ensures
            is_walk(g, w),
            w.len() == p.len(),
            forall|i: int| 0 <= i < p.len() ==> w[i] == (self.index)(#[trigger] p[i]),
            walk_cost(g, w) == self.run_cost(p),
        decreases p.len(),
    {
        if p.len() == 1 {
            let w = seq![(self.index)(p[0]) as usize];
            assert(is_walk(g, w));
            w
        } else {
            let q = p.drop_last();
            assert forall|i: int| 0 <= i < q.len() - 1 implies (self.step)(#[trigger] q[i], q[i + 1]) by {
                assert((self.step)(p[i], p[i + 1]));
            }
            let w0 = self.lemma_run_walk(g, q);
            let a = q.last();
            let b = p.last();
            self.lemma_run_valid(g, p, p.len() - 2);
            assert((self.step)(p[p.len() - 2], p[p.len() - 1]));
            let t = (self.index)(b) as usize;
            lemma_walk_push(g, w0, t);
            let w = w0.push(t);
            assert forall|i: int| 0 <= i < p.len() implies w[i] == (self.index)(#[trigger] p[i]) by {
                if i < q.len() {
                    assert(q[i] == p[i]);
                }
            }
            w
        }
    }

    /// A walk that begins at the number of a state is the walk of a run of
    /// the same cost.
    pub proof fn lemma_walk_run(self, g: Seq<Seq<(usize, u32)>>, w: Seq<usize>, from: N) -> (p: Seq<N>)
        requires
            self.codes(g),
            (self.valid)(from),
            is_walk(g, w),
            w[0] == (self.index)(from),
        ensures
            self.is_run(p),
            p.len() == w.len(),
            p[0] == from,
            forall|i: int| 0 <= i < w.len() ==> w[i] == (self.index)(#[trigger] p[i]) && (self.valid)(
                p[i],
            ),
            walk_cost(g, w) == self.run_cost(p),
        decreases w.len(),
    {
        if w.len() == 1 {
            let p = seq![from];
            assert(self.is_run(p));
            p
        } else {
            let n = w.len() - 1;
            let v = w.take(n);
            lemma_walk_prefix(g, w, n);
            assert(w.take(n + 1) =~= w);
            let q = self.lemma_walk_run(g, v, from);
            let a = q.last();
            assert(v[n - 1] == (self.index)(q[n - 1]));
            assert(arc(g, w[n - 1] as int, w[n] as int));
            assert(arc(g, (self.index)(a), w[n] as int));
            let b = choose|b: N| #[trigger] (self.step)(a, b) && (self.index)(b) == w[n] as int;
            assert((self.step)(a, b));
            let p = q.push(b);
            assert(p.drop_last() =~= q);
            assert forall|i: int| 0 <= i < p.len() - 1 implies (self.step)(#[trigger] p[i], p[i + 1]) by {
                if i < q.len() - 1 {
                    assert((self.step)(q[i], q[i + 1]));
                }
            }
            assert forall|i: int| 0 <= i < w.len() implies w[i] == (self.index)(#[trigger] p[i]) && (
            self.valid)(p[i]) by {
                if i < n {
                    assert(p[i] == q[i]);
                    assert(v[i] == w[i]);
                }
            }
            p
        }
    }

    /// The least cost of a walk between the nodes of two states is the
    /// least cost of a run between the states.
    pub proof fn lemma_least(self, g: Seq<Seq<(usize, u32)>>, s: N, t: N, d: nat)
        requires
            self.codes(g),
            (self.valid)(s),
            (self.valid)(t),
            is_least(g, (self.index)(s) as usize, (self.index)(t) as usize, d),
        ensures
            self.least_run(s, t, d),
    {
        let si = (self.index)(s) as usize;
        let ti = (self.index)(t) as usize;
        let w = choose|w: Seq<usize>| #[trigger] is_walk_to(g, si, w, ti) && walk_cost(g, w) == d;
        let p = self.lemma_walk_run(g, w, s);
        assert(w[w.len() - 1] == (self.index)(p[w.len() - 1]));
        assert(self.is_run_to(s, p, t));
        assert forall|q: Seq<N>| #[trigger] self.is_run_to(s, q, t) implies d <= self.run_cost(q) by {
            let v = self.lemma_run_walk(g, q);
            assert(v[0] == (self.index)(q[0]));
            assert(v[q.len() - 1] == (self.index)(q[q.len() - 1]));
            assert(is_walk_to(g, si, v, ti));
        }
    }

    /// Where no walk joins the nodes of two states, no run joins the
    /// states.
    pub proof fn lemma_cut_off(self, g: Seq<Seq<(usize, u32)>>, s: N, t: N)
        requires
            self.codes(g),
            (self.valid)(s),
            (self.valid)(t),
            cut_off(g, (self.index)(s) as usize, (self.index)(t) as usize),
        ensures
            self.no_run(s, t),
    {
        let si = (self.index)(s) as usize;
        let ti = (self.index)(t) as usize;
        assert forall|q: Seq<N>| !#[trigger] self.is_run_to(s, q, t) by {
            if self.is_run_to(s, q, t) {
                let v = self.lemma_run_walk(g, q);
                assert(v[0] == (self.index)(q[0]));
                assert(v[q.len() - 1] == (self.index)(q[q.len() - 1]));
                assert(is_walk_to(g, si, v, ti));
            }
        }
    }
}

} // verus!
