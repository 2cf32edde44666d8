//! Grids whose cells are joined to some of their four neighbours, and the
//! shortest trails through them.

use vstd::prelude::*;
use crate::graph::{
    arc, cut_off, graph_ok, is_least, is_walk, is_walk_to, lemma_edge, lemma_walk_prefix,
    lemma_walk_push, shortest_paths, toll, walk_cost, Expansion, Graph,
};
use crate::maze::heading::Direction;
use crate::maze::table::{lemma_slot_in_range, lemma_slot_injective, slot, Quad};

verus! {

/// The neighbour of the cell `a` in the heading `d`, as `(x, y)`.
pub open spec fn beside(a: (usize, usize), d: Direction) -> (int, int) {
    (a.0 + d.dx(), a.1 + d.dy())
}

/// A grid of `width` by `height` cells with links from cells to neighbours.
pub struct Lattice {
    width: usize,
    height: usize,
    links: Vec<Quad<bool>>,
    graph: Graph,
}

impl Lattice {
    pub closed spec fn width(&self) -> nat {
        self.width as nat
    }

    pub closed spec fn height(&self) -> nat {
        self.height as nat
    }

    /// The cell lies on the grid.
    pub open spec fn contains(&self, a: (usize, usize)) -> bool {
        a.0 < self.width() && a.1 < self.height()
    }

    /// The cell `a` has a link to its neighbour in the heading `d`.
    pub closed spec fn linked(&self, a: (usize, usize), d: Direction) -> bool {
        self.contains(a) && self.links@[slot(self.width as int, a.0 as int, a.1 as int)].get(d)
    }

    /// A link leads from the cell `a` to the cell `b`.
    pub open spec fn joined(&self, a: (usize, usize), b: (usize, usize)) -> bool {
        exists|d: Direction| #[trigger] self.linked(a, d) && beside(a, d) == (b.0 as int, b.1 as int)
    }

    pub closed spec fn node(&self, a: (usize, usize)) -> usize {
        slot(self.width as int, a.0 as int, a.1 as int) as usize
    }

    /// The `k`-th edge of node `i` stands for a link of a cell.
    pub closed spec fn edge_ok(&self, i: int, k: int) -> bool {
        exists|a: (usize, usize), d: Direction|
            #![trigger self.linked(a, d)]
            self.linked(a, d) && self.node(a) == i && self.contains(
                (beside(a, d).0 as usize, beside(a, d).1 as usize),
            ) && 0 <= beside(a, d).0 && 0 <= beside(a, d).1 && self.graph@[i][k] == (
                self.node((beside(a, d).0 as usize, beside(a, d).1 as usize)),
                1u32,
            )
    }

    /// The invariant of every lattice.
    pub closed spec fn wf(&self) -> bool {
        &&& self.links.len() == self.width * self.height
        &&& self.graph@.len() == self.width * self.height
        &&& graph_ok(self.graph@)
        &&& forall|a: (usize, usize), d: Direction| #[trigger]
            self.linked(a, d) ==> 0 <= beside(a, d).0 && 0 <= beside(a, d).1 && self.contains(
                (beside(a, d).0 as usize, beside(a, d).1 as usize),
            ) && arc(
                self.graph@,
                self.node(a) as int,
                self.node((beside(a, d).0 as usize, beside(a, d).1 as usize)) as int,
            )
        &&& forall|i: int, k: int|
            0 <= i < self.graph@.len() && 0 <= k < self.graph@[i].len() ==> #[trigger] self.edge_ok(
                i,
                k,
            )
    }

    /// A lattice of `cells == width * height` cells without links.
    pub fn new(width: usize, height: usize, cells: usize) -> (l: Lattice)
        requires
            cells == width * height,
        ensures
            l.wf(),
            l.width() == width,
            l.height() == height,
            forall|a: (usize, usize), d: Direction| !l.linked(a, d),
    {
        let mut links: Vec<Quad<bool>> = Vec::new();
        let mut i: usize = 0;
        while i < cells
            invariant
                i <= cells,
                links.len() == i,
                forall|k: int| 0 <= k < i ==> links@[k] == (Quad {
                    north: false,
                    east: false,
                    south: false,
                    west: false,
                }),
            decreases cells - i,
        {
            links.push(Quad::uniform(false));
            i += 1;
        }
        let graph = Graph::new(cells);
        let l = Lattice { width, height, links, graph };
        proof {
            assert forall|a: (usize, usize), d: Direction| !l.linked(a, d) by {
                if l.contains(a) {
                    lemma_slot_in_range(width as int, height as int, a.0 as int, a.1 as int);
                }
            }
        }
        l
    }

    /// Number of columns.
    pub fn cols(&self) -> (w: usize)
        ensures
            w == self.width(),
    {
        self.width
    }

    /// Number of rows.
    pub fn rows(&self) -> (h: usize)
        ensures
            h == self.height(),
    {
        self.height
    }

    /// Whether the cell `a` has a link in the heading `d`.
    pub fn has_link(&self, a: (usize, usize), d: Direction) -> (b: bool)
        requires
            self.wf(),
        ensures
            b == self.linked(a, d),
    {
        if a.0 >= self.width || a.1 >= self.height {
            return false;
        }
        proof {
            lemma_slot_in_range(self.width as int, self.height as int, a.0 as int, a.1 as int);
        }
        self.links[a.1 * self.width + a.0].at(d)
    }

    /// Adds a link from the cell `a` to its neighbour in the heading `d`.
    pub fn connect(&mut self, a: (usize, usize), d: Direction)
        requires
            old(self).wf(),
            old(self).contains(a),
            0 <= beside(a, d).0 < old(self).width(),
            0 <= beside(a, d).1 < old(self).height(),
            !old(self).linked(a, d),
        ensures
            final(self).wf(),
            final(self).width() == old(self).width(),
            final(self).height() == old(self).height(),
            forall|b: (usize, usize), e: Direction|
                final(self).linked(b, e) <==> old(self).linked(b, e) || (b == a && e == d),
    {
        let ghost pre = *self;
        let w = self.width;
        let (nx, ny): (usize, usize) = match d {
            Direction::North => (a.0, a.1 - 1),
            Direction::East => (a.0 + 1, a.1),
            Direction::South => (a.0, a.1 + 1),
            Direction::West => (a.0 - 1, a.1),
        };
        proof {
            lemma_slot_in_range(w as int, self.height as int, a.0 as int, a.1 as int);
            lemma_slot_in_range(w as int, self.height as int, nx as int, ny as int);
        }
        let i = a.1 * w + a.0;
        let j = ny * w + nx;
        let q = self.links[i].with(d, true);
        self.links.set(i, q);
        proof {
            if arc(pre.graph@, i as int, j as int) {
                let k = choose|k: int| 0 <= k < pre.graph@[i as int].len() && (
                #[trigger] pre.graph@[i as int][k]).0 == j;
                lemma_edge(pre.graph@, i as int, k);
                assert(pre.edge_ok(i as int, k));
            }
        }
        self.graph.add_edge(i, j, 1);
        proof {
            let g0 = pre.graph@;
            let g1 = self.graph@;
            assert forall|b: (usize, usize), e: Direction|
                self.linked(b, e) <==> pre.linked(b, e) || (b == a && e == d) by {
                if self.contains(b) {
                    lemma_slot_in_range(w as int, self.height as int, b.0 as int, b.1 as int);
                    if slot(w as int, b.0 as int, b.1 as int) == i {
                        lemma_slot_injective(w as int, b.0 as int, b.1 as int, a.0 as int, a.1 as int);
                    }
                }
            }
            assert forall|x: int, y: int| arc(g0, x, y) implies arc(g1, x, y) by {
                let k = choose|k: int| 0 <= k < g0[x].len() && (#[trigger] g0[x][k]).0 == y;
                assert(g1[x][k].0 == y);
            }
            assert(arc(g1, i as int, j as int)) by {
                let k = g0[i as int].len() as int;
                assert(g1[i as int][k].0 == j);
            }
            assert forall|b: (usize, usize), e: Direction| #[trigger]
                self.linked(b, e) implies 0 <= beside(b, e).0 && 0 <= beside(b, e).1
                && self.contains((beside(b, e).0 as usize, beside(b, e).1 as usize)) && arc(
                g1,
                self.node(b) as int,
                self.node((beside(b, e).0 as usize, beside(b, e).1 as usize)) as int,
            ) by {
                if b == a && e == d {
                } else {
                    assert(pre.linked(b, e));
                }
            }
            assert forall|x: int, k: int|
                0 <= x < g1.len() && 0 <= k < g1[x].len() implies #[trigger] self.edge_ok(x, k) by {
                if x == i && k == g0[i as int].len() {
                    assert(self.linked(a, d));
                } else {
                    assert(pre.edge_ok(x, k));
                    let (b, e) = choose|b: (usize, usize), e: Direction|
                        #![trigger pre.linked(b, e)]
                        pre.linked(b, e) && pre.node(b) == x && pre.contains(
                            (beside(b, e).0 as usize, beside(b, e).1 as usize),
                        ) && 0 <= beside(b, e).0 && 0 <= beside(b, e).1 && pre.graph@[x][k] == (
                            pre.node((beside(b, e).0 as usize, beside(b, e).1 as usize)),
                            1u32,
                        );
                    assert(self.linked(b, e));
                }
            }
        }
    }
}

/// A trail is a non-empty sequence of cells, each linked to the next.
pub open spec fn is_trail(l: &Lattice, p: Seq<(usize, usize)>) -> bool {
    &&& p.len() > 0
    &&& l.contains(p[0])
    &&& forall|i: int| 0 <= i < p.len() - 1 ==> l.joined(#[trigger] p[i], p[i + 1])
}

/// `p` is a trail from `from` to `to`.
pub open spec fn is_trail_to(l: &Lattice, from: (usize, usize), p: Seq<(usize, usize)>, to: (
    usize,
    usize,
)) -> bool {
    is_trail(l, p) && p[0] == from && p.last() == to
}

/// `d` is the least number of steps of any trail from `from` to `to`.
pub open spec fn least_steps(l: &Lattice, from: (usize, usize), to: (usize, usize), d: nat) -> bool {
    &&& exists|p: Seq<(usize, usize)>| #[trigger] is_trail_to(l, from, p, to) && p.len() == d + 1
    &&& forall|p: Seq<(usize, usize)>| #[trigger] is_trail_to(l, from, p, to) ==> d + 1 <= p.len()
}

/// No trail leads from `from` to `to`.
pub open spec fn no_trail(l: &Lattice, from: (usize, usize), to: (usize, usize)) -> bool {
    forall|p: Seq<(usize, usize)>| !#[trigger] is_trail_to(l, from, p, to)
}

impl Lattice {
    /// The nodes of a trail form a walk of the graph, one edge per step.
    proof fn lemma_trail_walk(&self, p: Seq<(usize, usize)>) -> (w: Seq<usize>)
        requires
            self.wf(),
            is_trail(self, p),
        ensures
            is_walk(self.graph@, w),
            w.len() == p.len(),
            forall|i: int| 0 <= i < p.len() ==> w[i] == self.node(#[trigger] p[i]),
            walk_cost(self.graph@, w) == p.len() - 1,
            self.contains(p.last()),
        decreases p.len(),
    {
        let g = self.graph@;
        lemma_slot_in_range(self.width as int, self.height as int, p[0].0 as int, p[0].1 as int);
        if p.len() == 1 {
            let w = seq![self.node(p[0])];
            assert(is_walk(g, w));
            w
        } else {
            let q = p.drop_last();
            assert forall|i: int| 0 <= i < q.len() - 1 implies self.joined(#[trigger] q[i], q[i + 1]) by {
                assert(self.joined(p[i], p[i + 1]));
            }
            let w0 = self.lemma_trail_walk(q);
            let a = q.last();
            let b = p.last();
            assert(self.joined(p[p.len() - 2], p[p.len() - 1]));
            let d = choose|d: Direction| #[trigger]
                self.linked(a, d) && beside(a, d) == (b.0 as int, b.1 as int);
            assert(self.linked(a, d));
            let t = self.node(b);
            assert(arc(g, w0.last() as int, t as int));
            let k = choose|k: int| 0 <= k < g[w0.last() as int].len() && (
            #[trigger] g[w0.last() as int][k]).0 == t;
            lemma_edge(g, w0.last() as int, k);
            assert(self.edge_ok(w0.last() as int, k));
            lemma_walk_push(g, w0, t);
            let w = w0.push(t);
            assert forall|i: int| 0 <= i < p.len() implies w[i] == self.node(#[trigger] p[i]) by {
                if i < q.len() {
                    assert(q[i] == p[i]);
                }
            }
            w
        }
    }

    /// The nodes of a walk that begins in a cell are the nodes of a trail,
    /// one step per edge.
    proof fn lemma_walk_trail(&self, w: Seq<usize>, from: (usize, usize)) -> (p: Seq<(usize, usize)>)
        requires
            self.wf(),
            self.contains(from),
            is_walk(self.graph@, w),
            w[0] == self.node(from),
        ensures
            is_trail(self, p),
            p.len() == w.len(),
            p[0] == from,
            forall|i: int| 0 <= i < w.len() ==> w[i] == self.node(#[trigger] p[i]) && self.contains(p[i]),
            walk_cost(self.graph@, w) == w.len() - 1,
        decreases w.len(),
    {
        let g = self.graph@;
        if w.len() == 1 {
            let p = seq![from];
            assert(is_trail(self, p));
            p
        } else {
            let n = w.len() - 1;
            let v = w.take(n);
            lemma_walk_prefix(g, w, n);
            assert(w.take(n + 1) =~= w);
            let q = self.lemma_walk_trail(v, from);
            let u = w[n - 1] as int;
            let t = w[n] as int;
            assert(arc(g, w[n - 1] as int, w[n] as int));
            let k = choose|k: int| 0 <= k < g[u].len() && (#[trigger] g[u][k]).0 == t;
            lemma_edge(g, u, k);
            assert(self.edge_ok(u, k));
            let (a, d) = choose|a: (usize, usize), d: Direction|
                #![trigger self.linked(a, d)]
                self.linked(a, d) && self.node(a) == u && self.contains(
                    (beside(a, d).0 as usize, beside(a, d).1 as usize),
                ) && 0 <= beside(a, d).0 && 0 <= beside(a, d).1 && self.graph@[u][k] == (
                    self.node((beside(a, d).0 as usize, beside(a, d).1 as usize)),
                    1u32,
                );
            let b = (beside(a, d).0 as usize, beside(a, d).1 as usize);
            let last = q.last();
            assert(v[n - 1] == self.node(q[n - 1]));
            lemma_slot_in_range(self.width as int, self.height as int, a.0 as int, a.1 as int);
            lemma_slot_in_range(self.width as int, self.height as int, last.0 as int, last.1 as int);
            lemma_slot_injective(
                self.width as int,
                a.0 as int,
                a.1 as int,
                last.0 as int,
                last.1 as int,
            );
            assert(a == last);
            assert(self.joined(last, b));
            let p = q.push(b);
            assert forall|i: int| 0 <= i < p.len() - 1 implies self.joined(#[trigger] p[i], p[i + 1]) by {
                if i < q.len() - 1 {
                    assert(self.joined(q[i], q[i + 1]));
                }
            }
            assert forall|i: int| 0 <= i < w.len() implies w[i] == self.node(#[trigger] p[i])
                && self.contains(p[i]) by {
                if i < n {
                    assert(p[i] == q[i]);
                    assert(v[i] == w[i]);
                }
            }
            p
        }
    }
}

/// The shortest trails from one cell of a lattice to all others.
pub struct Spread {
    from: (usize, usize),
    expansion: Expansion,
}

impl Spread {
    /// The cell from which the trails begin.
    pub closed spec fn from(&self) -> (usize, usize) {
        self.from
    }

    /// The spread was made on the lattice `l`.
    pub closed spec fn of(&self, l: &Lattice) -> bool {
        &&& l.wf()
        &&& l.contains(self.from)
        &&& self.expansion.source() == l.node(self.from)
        &&& self.expansion.complete(l.graph@, l.node(self.from))
    }

    /// The least number of steps from the first cell to `to`, if a trail
    /// leads there.
    pub fn steps_to(&self, l: &Lattice, to: (usize, usize)) -> (r: Option<u128>)
        requires
            self.of(l),
            l.contains(to),
        ensures
            match r {
                Some(d) => least_steps(l, self.from(), to, d as nat),
                None => no_trail(l, self.from(), to),
            },
    {
        proof {
            lemma_slot_in_range(l.width as int, l.height as int, to.0 as int, to.1 as int);
            lemma_slot_in_range(
                l.width as int,
                l.height as int,
                self.from.0 as int,
                self.from.1 as int,
            );
        }
        let t = to.1 * l.width + to.0;
        let r = self.expansion.distance(&l.graph, t);
        proof {
            let g = l.graph@;
            let s = l.node(self.from);
            match r {
                Some(d) => {
                    let w = choose|w: Seq<usize>| #[trigger]
                        is_walk_to(g, s, w, t) && walk_cost(g, w) == d as nat;
                    let p = l.lemma_walk_trail(w, self.from);
                    let e = p.last();
                    assert(w[w.len() - 1] == l.node(p[w.len() - 1]));
                    lemma_slot_in_range(l.width as int, l.height as int, e.0 as int, e.1 as int);
                    lemma_slot_injective(
                        l.width as int,
                        e.0 as int,
                        e.1 as int,
                        to.0 as int,
                        to.1 as int,
                    );
                    assert(is_trail_to(l, self.from, p, to) && p.len() == d + 1);
                    assert forall|q: Seq<(usize, usize)>| #[trigger]
                        is_trail_to(l, self.from, q, to) implies d + 1 <= q.len() by {
                        let v = l.lemma_trail_walk(q);
                        assert(v[0] == l.node(q[0]));
                        assert(v[q.len() - 1] == l.node(q[q.len() - 1]));
                        assert(is_walk_to(g, s, v, t));
                    }
                },
                None => {
                    assert forall|q: Seq<(usize, usize)>| !#[trigger] is_trail_to(
                        l,
                        self.from,
                        q,
                        to,
                    ) by {
                        if is_trail_to(l, self.from, q, to) {
                            let v = l.lemma_trail_walk(q);
                            assert(v[0] == l.node(q[0]));
                            assert(v[q.len() - 1] == l.node(q[q.len() - 1]));
                            assert(is_walk_to(g, s, v, t));
                        }
                    }
                },
            }
        }
        r
    }

    /// A shortest trail from the first cell to `to`, if a trail leads there.
    pub fn trail_to(&self, l: &Lattice, to: (usize, usize)) -> (r: Option<Vec<(usize, usize)>>)
        requires
            self.of(l),
            l.contains(to),
        ensures
            match r {
                Some(p) => is_trail_to(l, self.from(), p@, to) && least_steps(
                    l,
                    self.from(),
                    to,
                    (p@.len() - 1) as nat,
                ),
                None => no_trail(l, self.from(), to),
            },
    {
        let steps = self.steps_to(l, to);
        proof {
            lemma_slot_in_range(l.width as int, l.height as int, to.0 as int, to.1 as int);
        }
        let t = to.1 * l.width + to.0;
        let walk = match self.expansion.path_to(&l.graph, t) {
            Some(w) => w,
            None => {
                proof {
                    if steps is Some {
                        let p = choose|p: Seq<(usize, usize)>| #[trigger]
                            is_trail_to(l, self.from, p, to) && p.len() == steps.unwrap() + 1;
                        let v = l.lemma_trail_walk(p);
                        assert(v[0] == l.node(p[0]));
                        assert(v[p.len() - 1] == l.node(p[p.len() - 1]));
                        assert(is_walk_to(l.graph@, l.node(self.from), v, t));
                    }
                }
                return None;
            },
        };
        let ghost g = l.graph@;
        let ghost p = l.lemma_walk_trail(walk@, self.from);
        let w = l.width;
        proof {
            assert(w > 0);
        }
        let mut out: Vec<(usize, usize)> = Vec::new();
        let mut i: usize = 0;
        while i < walk.len()
            invariant
                i <= walk.len(),
                w == l.width,
                w > 0,
                l.wf(),
                p.len() == walk.len(),
                forall|k: int|
                    0 <= k < walk@.len() ==> walk@[k] == l.node(#[trigger] p[k]) && l.contains(p[k]),
                out@ == p.take(i as int),
            decreases walk.len() - i,
        {
            let n = walk[i];
            let x = n % w;
            let y = n / w;
            proof {
                let c = p[i as int];
                assert(walk@[i as int] == l.node(c));
                lemma_slot_in_range(w as int, l.height as int, c.0 as int, c.1 as int);
                vstd::arithmetic::div_mod::lemma_fundamental_div_mod_converse(
                    n as int,
                    w as int,
                    c.1 as int,
                    c.0 as int,
                );
            }
            out.push((x, y));
            assert(out@ =~= p.take(i + 1));
            i += 1;
        }
        proof {
            assert(p.take(walk.len() as int) =~= p);
            let e = p.last();
            assert(walk@[walk.len() - 1] == l.node(p[walk.len() - 1]));
            lemma_slot_in_range(w as int, l.height as int, e.0 as int, e.1 as int);
            lemma_slot_injective(w as int, e.0 as int, e.1 as int, to.0 as int, to.1 as int);
            match steps {
                Some(d) => {
                    assert(is_trail_to(l, self.from, p, to));
                    let v = l.lemma_trail_walk(p);
                    let q = choose|q: Seq<(usize, usize)>| #[trigger]
                        is_trail_to(l, self.from, q, to) && q.len() == d + 1;
                    let vq = l.lemma_trail_walk(q);
                    assert(vq[0] == l.node(q[0]));
                    assert(vq[q.len() - 1] == l.node(q[q.len() - 1]));
                    assert(is_walk_to(g, l.node(self.from), vq, t));
                },
                None => {
                    assert(is_trail_to(l, self.from, p, to));
                },
            }
        }
        Some(out)
    }
}

impl Lattice {
    /// The shortest trails from the cell `from` to every cell.
    pub fn spread(&self, from: (usize, usize)) -> (s: Spread)
        requires
            self.wf(),
            self.contains(from),
        ensures
            s.of(self),
            s.from() == from,
    {
        proof {
            lemma_slot_in_range(self.width as int, self.height as int, from.0 as int, from.1 as int);
        }
        let source = from.1 * self.width + from.0;
        let expansion = shortest_paths(&self.graph, source);
        Spread { from, expansion }
    }
}


/// The neighbour of `a` in the heading `d` lies on the grid and is open.
pub open spec fn opens_onto(
    width: nat,
    height: nat,
    open: Seq<bool>,
    a: (usize, usize),
    d: Direction,
) -> bool {
    let b = beside(a, d);
    a.0 < width && a.1 < height && 0 <= b.0 < width && 0 <= b.1 < height && open[slot(
        width as int,
        b.0,
        b.1,
    )]
}

/// Whether `(x, y)` precedes `(x2, y2)` when cells are visited row by row.
pub open spec fn earlier(x: int, y: int, x2: int, y2: int) -> bool {
    y < y2 || (y == y2 && x < x2)
}

impl Lattice {
    /// Links the cell `a` to its neighbour in the heading `d` if that
    /// neighbour is an open cell of the grid.
    fn link_if_open(&mut self, open: &Vec<bool>, a: (usize, usize), d: Direction)
        requires
            old(self).wf(),
            old(self).contains(a),
            open.len() == old(self).width() * old(self).height(),
            !old(self).linked(a, d),
        ensures
            final(self).wf(),
            final(self).width() == old(self).width(),
            final(self).height() == old(self).height(),
            forall|b: (usize, usize), e: Direction|
                final(self).linked(b, e) <==> old(self).linked(b, e) || (b == a && e == d
                    && opens_onto(old(self).width(), old(self).height(), open@, a, d)),
    {
        let w = self.width;
        let h = self.height;
        let target: Option<(usize, usize)> = match d {
            Direction::North => if a.1 == 0 {
                None
            } else {
                Some((a.0, a.1 - 1))
            },
            Direction::East => if a.0 + 1 >= w {
                None
            } else {
                Some((a.0 + 1, a.1))
            },
            Direction::South => if a.1 + 1 >= h {
                None
            } else {
                Some((a.0, a.1 + 1))
            },
            Direction::West => if a.0 == 0 {
                None
            } else {
                Some((a.0 - 1, a.1))
            },
        };
        match target {
            None => {},
            Some((x, y)) => {
                proof {
                    lemma_slot_in_range(w as int, h as int, x as int, y as int);
                }
                if open[y * w + x] {
                    self.connect(a, d);
                }
            },
        }
    }

    /// The lattice in which every cell is linked to those of its four
    /// neighbours that are open.
    pub fn from_open(width: usize, height: usize, open: &Vec<bool>) -> (l: Lattice)
        requires
            open.len() == width * height,
        ensures
            l.wf(),
            l.width() == width,
            l.height() == height,
            forall|a: (usize, usize), d: Direction|
                l.linked(a, d) <==> opens_onto(width as nat, height as nat, open@, a, d),
    {
        let mut l = Lattice::new(width, height, open.len());
        let mut y: usize = 0;
        while y < height
            invariant
                y <= height,
                l.wf(),
                l.width() == width,
                l.height() == height,
                open.len() == width * height,
                forall|a: (usize, usize), d: Direction|
                    l.linked(a, d) <==> a.1 < y && opens_onto(
                        width as nat,
                        height as nat,
                        open@,
                        a,
                        d,
                    ),
            decreases height - y,
        {
            let mut x: usize = 0;
            while x < width
                invariant
                    x <= width,
                    y < height,
                    l.wf(),
                    l.width() == width,
                    l.height() == height,
                    open.len() == width * height,
                    forall|a: (usize, usize), d: Direction|
                        l.linked(a, d) <==> earlier(a.0 as int, a.1 as int, x as int, y as int)
                            && opens_onto(width as nat, height as nat, open@, a, d),
                decreases width - x,
            {
                l.link_if_open(open, (x, y), Direction::North);
                l.link_if_open(open, (x, y), Direction::East);
                l.link_if_open(open, (x, y), Direction::South);
                l.link_if_open(open, (x, y), Direction::West);
                proof {
                    assert forall|a: (usize, usize), d: Direction|
                        l.linked(a, d) <==> earlier(a.0 as int, a.1 as int, x + 1, y as int)
                            && opens_onto(width as nat, height as nat, open@, a, d) by {
                        if a == (x, y) {
                            match d {
                                Direction::North => {},
                                Direction::East => {},
                                Direction::South => {},
                                Direction::West => {},
                            }
                        }
                    }
                }
                x += 1;
            }
            y += 1;
        }
        l
    }
}


/// The open cells of a grid, as `(x, y)`.
pub open spec fn open_set(width: nat, height: nat, open: Seq<bool>) -> Set<(usize, usize)> {
    Set::new(
        |c: (usize, usize)| c.0 < width && c.1 < height && open[slot(width as int, c.0 as int, c.1 as int)],
    )
}

/// Two cells are neighbours in a row or in a column.
pub open spec fn next_to(a: (usize, usize), b: (usize, usize)) -> bool {
    (a.0 == b.0 && (a.1 + 1 == b.1 || b.1 + 1 == a.1)) || (a.1 == b.1 && (a.0 + 1 == b.0 || b.0 + 1
        == a.0))
}

/// The cell after the `i`-th of `p` is a neighbour of the `i`-th and one of
/// `cells`.
pub open spec fn path_step(cells: Set<(usize, usize)>, p: Seq<(usize, usize)>, i: int) -> bool {
    next_to(p[i], p[i + 1]) && cells.contains(p[i + 1])
}

/// A path is a non-empty sequence of cells, each after the first a
/// neighbour of the one before it and one of `cells`.
pub open spec fn is_path(cells: Set<(usize, usize)>, p: Seq<(usize, usize)>) -> bool {
    &&& p.len() > 0
    &&& forall|i: int| 0 <= i < p.len() - 1 ==> #[trigger] path_step(cells, p, i)
}

/// `p` is a path from `from` to `to`, and no path between them is shorter.
pub open spec fn shortest_path(
    cells: Set<(usize, usize)>,
    from: (usize, usize),
    to: (usize, usize),
    p: Seq<(usize, usize)>,
) -> bool {
    &&& is_path(cells, p)
    &&& p[0] == from
    &&& p.last() == to
    &&& forall|q: Seq<(usize, usize)>|
        #[trigger] is_path(cells, q) && q[0] == from && q.last() == to ==> p.len() <= q.len()
}

/// No path leads from `from` to `to`.
pub open spec fn no_path(cells: Set<(usize, usize)>, from: (usize, usize), to: (usize, usize)) -> bool {
    forall|q: Seq<(usize, usize)>| !(#[trigger] is_path(cells, q) && q[0] == from && q.last() == to)
}

impl Lattice {
    /// The lattice links every cell to those of its neighbours that are
    /// open in `open`.
    pub open spec fn follows(&self, open: Seq<bool>) -> bool {
        forall|a: (usize, usize), d: Direction|
            self.linked(a, d) <==> opens_onto(self.width(), self.height(), open, a, d)
    }

    /// A cell of the grid is joined to every open neighbour.
    pub proof fn lemma_step_link(&self, open: Seq<bool>, a: (usize, usize), b: (usize, usize))
        requires
            self.follows(open),
            self.contains(a),
            next_to(a, b),
            open_set(self.width(), self.height(), open).contains(b),
        ensures
            self.joined(a, b),
    {
        let d = if b.1 == a.1 + 1 {
            Direction::South
        } else if b.1 + 1 == a.1 {
            Direction::North
        } else if b.0 == a.0 + 1 {
            Direction::East
        } else {
            Direction::West
        };
        assert(beside(a, d) == (b.0 as int, b.1 as int));
        assert(opens_onto(self.width(), self.height(), open, a, d));
        assert(self.linked(a, d));
    }

    /// A cell is joined to open neighbours only.
    pub proof fn lemma_link_step(&self, open: Seq<bool>, a: (usize, usize), b: (usize, usize))
        requires
            self.follows(open),
            self.joined(a, b),
        ensures
            next_to(a, b),
            open_set(self.width(), self.height(), open).contains(b),
            self.contains(a),
    {
        let d = choose|d: Direction| #[trigger]
            self.linked(a, d) && beside(a, d) == (b.0 as int, b.1 as int);
        assert(opens_onto(self.width(), self.height(), open, a, d));
    }

    /// On such a lattice the trails that begin on the grid are the paths
    /// through the open cells.
    pub proof fn lemma_path_trail(&self, open: Seq<bool>, p: Seq<(usize, usize)>)
        requires
            self.wf(),
            self.follows(open),
            p.len() > 0,
            self.contains(p[0]),
        ensures
            is_path(open_set(self.width(), self.height(), open), p) <==> is_trail(self, p),
    {
        let cells = open_set(self.width(), self.height(), open);
        if is_path(cells, p) {
            assert forall|i: int| 0 <= i < p.len() - 1 implies self.joined(#[trigger] p[i], p[i + 1]) by {
                assert(path_step(cells, p, i));
                if i > 0 {
                    assert(path_step(cells, p, i - 1));
                    assert(cells.contains(p[i]));
                }
                self.lemma_step_link(open, p[i], p[i + 1]);
            }
        }
        if is_trail(self, p) {
            assert forall|i: int| 0 <= i < p.len() - 1 implies #[trigger] path_step(cells, p, i) by {
                assert(self.joined(p[i], p[i + 1]));
                self.lemma_link_step(open, p[i], p[i + 1]);
            }
        }
    }
}

impl Lattice {
    /// A shortest trail is a shortest path.
    proof fn lemma_shortest(&self, open: Seq<bool>, from: (usize, usize), to: (usize, usize), p: Seq<
        (usize, usize),
    >)
        requires
            self.wf(),
            self.follows(open),
            self.contains(from),
            is_trail_to(self, from, p, to),
            least_steps(self, from, to, (p.len() - 1) as nat),
        ensures
            shortest_path(open_set(self.width(), self.height(), open), from, to, p),
    {
        let cells = open_set(self.width(), self.height(), open);
        self.lemma_path_trail(open, p);
        assert forall|q: Seq<(usize, usize)>|
            #[trigger] is_path(cells, q) && q[0] == from && q.last() == to implies p.len() <= q.len() by {
            self.lemma_path_trail(open, q);
            assert(is_trail_to(self, from, q, to));
        }
    }

    /// Where no trail leads, no path leads.
    proof fn lemma_none(&self, open: Seq<bool>, from: (usize, usize), to: (usize, usize))
        requires
            self.wf(),
            self.follows(open),
            self.contains(from),
            no_trail(self, from, to),
        ensures
            no_path(open_set(self.width(), self.height(), open), from, to),
    {
        let cells = open_set(self.width(), self.height(), open);
        assert forall|q: Seq<(usize, usize)>|
            !(#[trigger] is_path(cells, q) && q[0] == from && q.last() == to) by {
            if is_path(cells, q) && q[0] == from && q.last() == to {
                self.lemma_path_trail(open, q);
                assert(is_trail_to(self, from, q, to));
            }
        }
    }
}

/// No path leads from the grid to a cell that lies off it.
pub proof fn lemma_off_grid(width: nat, height: nat, open: Seq<bool>, from: (usize, usize), to: (
    usize,
    usize,
))
    requires
        from.0 < width && from.1 < height,
        !(to.0 < width && to.1 < height),
    ensures
        no_path(open_set(width, height, open), from, to),
{
    let cells = open_set(width, height, open);
    assert forall|q: Seq<(usize, usize)>|
        !(#[trigger] is_path(cells, q) && q[0] == from && q.last() == to) by {
        if is_path(cells, q) && q[0] == from && q.last() == to {
            if q.len() == 1 {
                assert(q.last() == q[0]);
            } else {
                let h = q.len() - 2;
                assert(path_step(cells, q, h));
                assert(q[h + 1] == to);
            }
        }
    }
}

/// A shortest path from `from` to `to` through the open cells of a
/// `width` by `height` grid, if a path leads there. The first cell need not
/// be open.
pub fn shortest_open_path(width: usize, height: usize, open: &Vec<bool>, from: (usize, usize), to: (
    usize,
    usize,
)) -> (r: Option<Vec<(usize, usize)>>)
    requires
        open.len() == width * height,
        from.0 < width,
        from.1 < height,
    ensures
        match r {
            Some(p) => shortest_path(open_set(width as nat, height as nat, open@), from, to, p@),
            None => no_path(open_set(width as nat, height as nat, open@), from, to),
        },
{
    let ghost cells = open_set(width as nat, height as nat, open@);
    let l = Lattice::from_open(width, height, open);
    if to.0 >= width || to.1 >= height {
        proof {
            lemma_off_grid(width as nat, height as nat, open@, from, to);
        }
        return None;
    }
    let s = l.spread(from);
    let r = s.trail_to(&l, to);
    proof {
        match &r {
            Some(p) => {
                l.lemma_shortest(open@, from, to, p@);
            },
            None => {
                l.lemma_none(open@, from, to);
            },
        }
    }
    r
}


/// The cell `a` is to be linked to its neighbour in the heading `d`: the
/// neighbour lies on the grid, and the table says so.
pub open spec fn wanted(
    width: nat,
    height: nat,
    links: Seq<Quad<bool>>,
    a: (usize, usize),
    d: Direction,
) -> bool {
    let b = beside(a, d);
    a.0 < width && a.1 < height && 0 <= b.0 < width && 0 <= b.1 < height && links[slot(
        width as int,
        a.0 as int,
        a.1 as int,
    )].get(d)
}

impl Lattice {
    /// Links the cell `a` to its neighbour in the heading `d` if the
    /// neighbour lies on the grid and the table says so.
    fn link_if_wanted(&mut self, links: &Vec<Quad<bool>>, a: (usize, usize), d: Direction)
        requires
            old(self).wf(),
            old(self).contains(a),
            links.len() == old(self).width() * old(self).height(),
            !old(self).linked(a, d),
        ensures
            final(self).wf(),
            final(self).width() == old(self).width(),
            final(self).height() == old(self).height(),
            forall|b: (usize, usize), e: Direction|
                final(self).linked(b, e) <==> old(self).linked(b, e) || (b == a && e == d && wanted(
                    old(self).width(),
                    old(self).height(),
                    links@,
                    a,
                    d,
                )),
    {
        let w = self.width;
        let h = self.height;
        let inside = match d {
            Direction::North => a.1 > 0,
            Direction::East => a.0 + 1 < w,
            Direction::South => a.1 + 1 < h,
            Direction::West => a.0 > 0,
        };
        proof {
            lemma_slot_in_range(w as int, h as int, a.0 as int, a.1 as int);
        }
        if inside && links[a.1 * w + a.0].at(d) {
            self.connect(a, d);
        }
    }

    /// The lattice with the links that a table asks for, between cells of
    /// the grid.
    pub fn from_links(width: usize, height: usize, links: &Vec<Quad<bool>>) -> (l: Lattice)
        requires
            links.len() == width * height,
        ensures
            l.wf(),
            l.width() == width,
            l.height() == height,
            forall|a: (usize, usize), d: Direction|
                l.linked(a, d) <==> wanted(width as nat, height as nat, links@, a, d),
    {
        let mut l = Lattice::new(width, height, links.len());
        let mut y: usize = 0;
        while y < height
            invariant
                y <= height,
                l.wf(),
                l.width() == width,
                l.height() == height,
                links.len() == width * height,
                forall|a: (usize, usize), d: Direction|
                    l.linked(a, d) <==> a.1 < y && wanted(width as nat, height as nat, links@, a, d),
            decreases height - y,
        {
            let mut x: usize = 0;
            while x < width
                invariant
                    x <= width,
                    y < height,
                    l.wf(),
                    l.width() == width,
                    l.height() == height,
                    links.len() == width * height,
                    forall|a: (usize, usize), d: Direction|
                        l.linked(a, d) <==> earlier(a.0 as int, a.1 as int, x as int, y as int)
                            && wanted(width as nat, height as nat, links@, a, d),
                decreases width - x,
            {
                l.link_if_wanted(links, (x, y), Direction::North);
                l.link_if_wanted(links, (x, y), Direction::East);
                l.link_if_wanted(links, (x, y), Direction::South);
                l.link_if_wanted(links, (x, y), Direction::West);
                proof {
                    assert forall|a: (usize, usize), d: Direction|
                        l.linked(a, d) <==> earlier(a.0 as int, a.1 as int, x + 1, y as int)
                            && wanted(width as nat, height as nat, links@, a, d) by {
                        if a == (x, y) {
                            match d {
                                Direction::North => {},
                                Direction::East => {},
                                Direction::South => {},
                                Direction::West => {},
                            }
                        }
                    }
                }
                x += 1;
            }
            y += 1;
        }
        l
    }
}

} // verus!
