//! A table with one slot for every pose of a grid: a cell and a heading.

use vstd::prelude::*;
use crate::maze::heading::Direction;
use crate::maze::route::Pose;

verus! {

/// Four values, one per heading.
#[derive(Clone, Copy)]
pub struct Quad<T> {
    pub north: T,
    pub east: T,
    pub south: T,
    pub west: T,
}

impl<T: Copy> Quad<T> {
    pub open spec fn get(self, d: Direction) -> T {
        match d {
            Direction::North => self.north,
            Direction::East => self.east,
            Direction::South => self.south,
            Direction::West => self.west,
        }
    }

    pub open spec fn put(self, d: Direction, v: T) -> Quad<T> {
        match d {
            Direction::North => Quad { north: v, ..self },
            Direction::East => Quad { east: v, ..self },
            Direction::South => Quad { south: v, ..self },
            Direction::West => Quad { west: v, ..self },
        }
    }

    /// How many of the four values satisfy `f`.
    pub open spec fn tally(self, f: spec_fn(T) -> bool) -> nat {
        let n: nat = if f(self.north) { 1 } else { 0 };
        let e: nat = if f(self.east) { 1 } else { 0 };
        let s: nat = if f(self.south) { 1 } else { 0 };
        let w: nat = if f(self.west) { 1 } else { 0 };
        n + e + s + w
    }

    pub fn uniform(v: T) -> (q: Quad<T>)
        ensures
            forall|d: Direction| q.get(d) == v,
            q == (Quad { north: v, east: v, south: v, west: v }),
    {
        Quad { north: v, east: v, south: v, west: v }
    }

    pub fn at(&self, d: Direction) -> (v: T)
        ensures
            v == self.get(d),
    {
        match d {
            Direction::North => self.north,
            Direction::East => self.east,
            Direction::South => self.south,
            Direction::West => self.west,
        }
    }

    pub fn with(self, d: Direction, v: T) -> (q: Quad<T>)
        ensures
            q == self.put(d, v),
    {
        match d {
            Direction::North => Quad { north: v, east: self.east, south: self.south, west: self.west },
            Direction::East => Quad { north: self.north, east: v, south: self.south, west: self.west },
            Direction::South => Quad { north: self.north, east: self.east, south: v, west: self.west },
            Direction::West => Quad { north: self.north, east: self.east, south: self.south, west: v },
        }
    }
}

/// How many values in all the slots satisfy `f`.
pub open spec fn tally_all<T: Copy>(s: Seq<Quad<T>>, f: spec_fn(T) -> bool) -> nat
    decreases s.len(),
{
    if s.len() == 0 {
        0
    } else {
        tally_all(s.drop_last(), f) + s.last().tally(f)
    }
}

pub proof fn lemma_tally_bound<T: Copy>(s: Seq<Quad<T>>, f: spec_fn(T) -> bool)
    ensures
        tally_all(s, f) <= 4 * s.len(),
    decreases s.len(),
{
    if s.len() > 0 {
        lemma_tally_bound(s.drop_last(), f);
    }
}

pub proof fn lemma_tally_update<T: Copy>(s: Seq<Quad<T>>, i: int, q: Quad<T>, f: spec_fn(T) -> bool)
    requires
        0 <= i < s.len(),
    ensures
        tally_all(s.update(i, q), f) + s[i].tally(f) == tally_all(s, f) + q.tally(f),
    decreases s.len(),
{
    let t = s.update(i, q);
    if i == s.len() - 1 {
        assert(t.drop_last() =~= s.drop_last());
    } else {
        assert(t.drop_last() =~= s.drop_last().update(i, q));
        lemma_tally_update(s.drop_last(), i, q, f);
    }
}

pub proof fn lemma_tally_push<T: Copy>(s: Seq<Quad<T>>, q: Quad<T>, f: spec_fn(T) -> bool)
    ensures
        tally_all(s.push(q), f) == tally_all(s, f) + q.tally(f),
{
    assert(s.push(q).drop_last() =~= s);
}

/// Row-major slot of the cell `(x, y)` in a grid `width` wide.
pub open spec fn slot(width: int, x: int, y: int) -> int {
    y * width + x
}

pub proof fn lemma_slot_in_range(width: int, height: int, x: int, y: int)
    requires
        0 <= x < width,
        0 <= y < height,
    ensures
        0 <= slot(width, x, y) < width * height,
{
    assert(y * width + width <= height * width) by (nonlinear_arith)
        requires
            0 <= y < height,
            0 <= width,
    ;
    assert(0 <= y * width) by (nonlinear_arith)
        requires
            0 <= y,
            0 <= width,
    ;
    assert(height * width == width * height) by (nonlinear_arith);
}

pub proof fn lemma_slot_injective(width: int, x1: int, y1: int, x2: int, y2: int)
    requires
        0 <= x1 < width,
        0 <= x2 < width,
        0 <= y1,
        0 <= y2,
        slot(width, x1, y1) == slot(width, x2, y2),
    ensures
        x1 == x2,
        y1 == y2,
{
    if y1 < y2 {
        assert(y1 * width + width <= y2 * width) by (nonlinear_arith)
            requires
                y1 + 1 <= y2,
                0 <= width,
        ;
    } else if y2 < y1 {
        assert(y2 * width + width <= y1 * width) by (nonlinear_arith)
            requires
                y2 + 1 <= y1,
                0 <= width,
        ;
    }
}

/// One value of type `T` for every pose of a `width` by `height` grid.
pub struct StateTable<T: Copy> {
    width: usize,
    height: usize,
    slots: Vec<Quad<T>>,
}

impl<T: Copy> StateTable<T> {
    pub closed spec fn wf(&self) -> bool {
        self.slots.len() == self.width * self.height
    }

    pub closed spec fn width(&self) -> nat {
        self.width as nat
    }

    pub closed spec fn height(&self) -> nat {
        self.height as nat
    }

    /// Whether the pose lies on the grid this table was made for.
    pub open spec fn covers(&self, p: Pose) -> bool {
        p.x < self.width() && p.y < self.height()
    }

    /// The value stored for a pose.
    pub closed spec fn get(&self, p: Pose) -> T {
        self.slots@[slot(self.width as int, p.x as int, p.y as int)].get(p.dir)
    }

    /// How many stored values satisfy `f`.
    pub closed spec fn tally(&self, f: spec_fn(T) -> bool) -> nat {
        tally_all(self.slots@, f)
    }

    /// No table holds more values than four per cell.
    pub proof fn lemma_tally_le(&self, f: spec_fn(T) -> bool)
        requires
            self.wf(),
        ensures
            self.tally(f) <= 4 * self.width() * self.height(),
            self.width() * self.height() <= usize::MAX,
    {
        lemma_tally_bound(self.slots@, f);
        assert(4 * (self.width as int * self.height as int) == 4 * self.width() * self.height())
            by (nonlinear_arith);
    }

    /// A table of `cells == width * height` cells, every slot holding `init`.
    pub fn new(width: usize, height: usize, cells: usize, init: T) -> (t: Self)
        requires
            cells == width * height,
        ensures
            t.wf(),
            t.width() == width,
            t.height() == height,
            forall|p: Pose| t.covers(p) ==> #[trigger] t.get(p) == init,
            forall|f: spec_fn(T) -> bool| !f(init) ==> #[trigger] t.tally(f) == 0,
    {
        let mut slots: Vec<Quad<T>> = Vec::new();
        let q = Quad::uniform(init);
        let mut i: usize = 0;
        while i < cells
            invariant
                i <= cells,
                slots.len() == i,
                q == (Quad { north: init, east: init, south: init, west: init }),
                forall|k: int| 0 <= k < i ==> slots@[k] == q,
                forall|f: spec_fn(T) -> bool| !f(init) ==> #[trigger] tally_all(slots@, f) == 0,
            decreases cells - i,
        {
            proof {
                assert forall|f: spec_fn(T) -> bool| !f(init) implies #[trigger] tally_all(
                    slots@.push(q),
                    f,
                ) == 0 by {
                    lemma_tally_push(slots@, q, f);
                }
            }
            slots.push(q);
            i += 1;
        }
        let t = StateTable { width, height, slots };
        proof {
            assert forall|p: Pose| t.covers(p) implies #[trigger] t.get(p) == init by {
                lemma_slot_in_range(width as int, height as int, p.x as int, p.y as int);
            }
        }
        t
    }

    pub fn read(&self, p: Pose) -> (v: T)
        requires
            self.wf(),
            self.covers(p),
        ensures
            v == self.get(p),
    {
        proof {
            lemma_slot_in_range(self.width as int, self.height as int, p.x as int, p.y as int);
        }
        let i = p.y * self.width + p.x;
        self.slots[i].at(p.dir)
    }

    pub fn write(&mut self, p: Pose, v: T)
        requires
            old(self).wf(),
            old(self).covers(p),
        ensures
            final(self).wf(),
            final(self).width() == old(self).width(),
            final(self).height() == old(self).height(),
            final(self).get(p) == v,
            forall|q: Pose| old(self).covers(q) && q != p ==> #[trigger] final(self).get(q) == old(self).get(q),
            forall|f: spec_fn(T) -> bool|
                #[trigger] final(self).tally(f) + (if f(old(self).get(p)) { 1nat } else { 0nat })
                    == old(self).tally(f) + (if f(v) { 1nat } else { 0nat }),
    {
        proof {
            lemma_slot_in_range(self.width as int, self.height as int, p.x as int, p.y as int);
        }
        let i = p.y * self.width + p.x;
        let q = self.slots[i].with(p.dir, v);
        proof {
            assert forall|f: spec_fn(T) -> bool|
                #[trigger] tally_all(self.slots@.update(i as int, q), f) + (if f(
                    self.slots@[i as int].get(p.dir),
                ) { 1nat } else { 0nat }) == tally_all(self.slots@, f) + (if f(v) { 1nat } else { 0nat }) by {
                lemma_tally_update(self.slots@, i as int, q, f);
            }
            assert forall|r: Pose| self.covers(r) && r != p implies self.slots@.update(i as int, q)[slot(
                self.width as int,
                r.x as int,
                r.y as int,
            )].get(r.dir) == self.get(r) by {
                lemma_slot_in_range(self.width as int, self.height as int, r.x as int, r.y as int);
                if slot(self.width as int, r.x as int, r.y as int) == i as int {
                    lemma_slot_injective(self.width as int, r.x as int, r.y as int, p.x as int, p.y as int);
                }
            }
        }
        self.slots.set(i, q);
    }
}

} // verus!
