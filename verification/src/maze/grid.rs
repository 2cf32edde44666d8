//! The grid model: open cells and walls, one start and one end.

use vstd::prelude::*;
use crate::maze::table::{lemma_slot_in_range, slot};
use crate::text::views;

verus! {

/// What a grid position holds.
#[derive(Clone, Copy, Debug, PartialEq, Eq, Structural)]
pub enum Cell {
    Open,
    Wall,
}

/// Why a grid could not be built or read.
#[derive(Clone, Copy, Debug, PartialEq, Eq, Structural)]
pub enum GridError {
    /// Rows of unequal length, or no start or no end marker.
    MalformedInput,
    /// A coordinate outside the grid.
    OutOfBounds,
}

/// `'#'` is a wall; every other character is an open cell.
pub open spec fn cell_of(ch: char) -> Cell {
    if ch == '#' {
        Cell::Wall
    } else {
        Cell::Open
    }
}

/// All rows are as long as the first.
pub open spec fn rectangular(rows: Seq<Seq<char>>) -> bool {
    forall|y: int| 0 <= y < rows.len() ==> (#[trigger] rows[y]).len() == rows[0].len()
}

/// `(x, y)` precedes `(x2, y2)` in reading order.
pub open spec fn reads_before(x: int, y: int, x2: int, y2: int) -> bool {
    y < y2 || (y == y2 && x < x2)
}

/// The character at column `x` of row `y` is `target`.
pub open spec fn holds(rows: Seq<Seq<char>>, target: char, x: int, y: int) -> bool {
    0 <= y < rows.len() && 0 <= x < rows[y].len() && rows[y][x] == target
}

/// `target` occurs somewhere in the matrix.
pub open spec fn occurs(rows: Seq<Seq<char>>, target: char) -> bool {
    exists|x: int, y: int| holds(rows, target, x, y)
}

/// `(x, y)` is the first place in reading order that holds `target`.
pub open spec fn is_first(rows: Seq<Seq<char>>, target: char, x: int, y: int) -> bool {
    &&& holds(rows, target, x, y)
    &&& forall|x2: int, y2: int| #[trigger]
        holds(rows, target, x2, y2) ==> !reads_before(x2, y2, x, y)
}

/// A character matrix from which a grid can be built.
pub open spec fn well_formed(rows: Seq<Seq<char>>) -> bool {
    rectangular(rows) && occurs(rows, 'S') && occurs(rows, 'E')
}

/// The first place in reading order where `target` stands, as `(x, y)`.
pub fn find_node(rows: &Vec<Vec<char>>, target: char) -> (r: Option<(usize, usize)>)
    ensures
        match r {
            Some(p) => is_first(views(rows@), target, p.0 as int, p.1 as int),
            None => !occurs(views(rows@), target),
        },
{
    let ghost m = views(rows@);
    let mut y: usize = 0;
    while y < rows.len()
        invariant
            y <= rows.len(),
            m == views(rows@),
            forall|x2: int, y2: int| #[trigger] holds(m, target, x2, y2) ==> y2 >= y,
        decreases rows.len() - y,
    {
        let row = &rows[y];
        assert(m[y as int] == row@);
        let mut x: usize = 0;
        while x < row.len()
            invariant
                x <= row.len(),
                y < rows.len(),
                m == views(rows@),
                m[y as int] == row@,
                forall|x2: int, y2: int| #[trigger]
                    holds(m, target, x2, y2) ==> !reads_before(x2, y2, x as int, y as int),
            decreases row.len() - x,
        {
            if row[x] == target {
                assert(holds(m, target, x as int, y as int));
                return Some((x, y));
            }
            x += 1;
        }
        y += 1;
    }
    None
}

/// The mathematical model of a grid: its rows of cells, and the start and
/// end cells as `(x, y)`.
pub ghost struct Maze {
    pub cells: Seq<Seq<Cell>>,
    pub start: (usize, usize),
    pub end: (usize, usize),
}

impl Maze {
    /// Number of rows.
    pub open spec fn height(self) -> nat {
        self.cells.len()
    }

    /// Number of columns.
    pub open spec fn width(self) -> nat {
        if self.cells.len() > 0 {
            self.cells[0].len()
        } else {
            0
        }
    }

    /// The coordinate lies on the grid.
    pub open spec fn contains(self, x: int, y: int) -> bool {
        0 <= x < self.width() && 0 <= y < self.height()
    }

    /// The coordinate lies on the grid and its cell is open.
    pub open spec fn open(self, x: int, y: int) -> bool {
        self.contains(x, y) && self.cells[y][x] == Cell::Open
    }

    /// All rows have the same length, the start and the end are open cells,
    /// and the number of cells fits the machine.
    pub open spec fn valid(self) -> bool {
        &&& forall|y: int| 0 <= y < self.cells.len() ==> (#[trigger] self.cells[y]).len() == self.width()
        &&& self.open(self.start.0 as int, self.start.1 as int)
        &&& self.open(self.end.0 as int, self.end.1 as int)
        &&& self.width() * self.height() <= usize::MAX
    }

    /// Neither side of a valid grid is longer than the machine can count.
    pub proof fn lemma_sides(self)
        requires
            self.valid(),
        ensures
            self.width() <= usize::MAX,
            self.height() <= usize::MAX,
            self.height() >= 1,
            self.width() >= 1,
    {
        let w = self.width();
        let h = self.height();
        assert(w <= w * h && h <= w * h) by (nonlinear_arith)
            requires
                w >= 1,
                h >= 1,
        ;
    }

    /// The model is the one that the character matrix describes.
    pub open spec fn describes(self, rows: Seq<Seq<char>>) -> bool {
        &&& self.cells.len() == rows.len()
        &&& forall|y: int|
            0 <= y < rows.len() ==> (#[trigger] self.cells[y]).len() == rows[y].len()
        &&& forall|x: int, y: int|
            0 <= y < rows.len() && 0 <= x < rows[y].len() ==> #[trigger] self.cells[y][x] == cell_of(
                rows[y][x],
            )
        &&& is_first(rows, 'S', self.start.0 as int, self.start.1 as int)
        &&& is_first(rows, 'E', self.end.0 as int, self.end.1 as int)
    }
}

/// Only one model describes a character matrix.
pub proof fn lemma_describes_unique(a: Maze, b: Maze, rows: Seq<Seq<char>>)
    requires
        a.describes(rows),
        b.describes(rows),
    ensures
        a == b,
{
    assert(a.cells =~~= b.cells) by {
        assert forall|y: int| 0 <= y < a.cells.len() implies a.cells[y] =~= b.cells[y] by {
            assert forall|x: int| 0 <= x < a.cells[y].len() implies a.cells[y][x] == b.cells[y][x] by {
                assert(a.cells[y][x] == cell_of(rows[y][x]));
                assert(b.cells[y][x] == cell_of(rows[y][x]));
            }
        }
    }
    let (ax, ay) = (a.start.0 as int, a.start.1 as int);
    let (bx, by) = (b.start.0 as int, b.start.1 as int);
    assert(holds(rows, 'S', ax, ay) && holds(rows, 'S', bx, by));
    assert(!reads_before(ax, ay, bx, by) && !reads_before(bx, by, ax, ay));
    let (cx, cy) = (a.end.0 as int, a.end.1 as int);
    let (dx, dy) = (b.end.0 as int, b.end.1 as int);
    assert(holds(rows, 'E', cx, cy) && holds(rows, 'E', dx, dy));
    assert(!reads_before(cx, cy, dx, dy) && !reads_before(dx, dy, cx, cy));
}

/// A rectangular grid of cells with a start and an end cell, both open.
pub struct Grid {
    width: usize,
    height: usize,
    cells: Vec<Cell>,
    start: (usize, usize),
    end: (usize, usize),
}

impl View for Grid {
    type V = Maze;

    closed spec fn view(&self) -> Maze {
        Maze {
            cells: Seq::new(
                self.height as nat,
                |y: int| Seq::new(self.width as nat, |x: int| self.cells@[slot(self.width as int, x, y)]),
            ),
            start: self.start,
            end: self.end,
        }
    }
}

impl Grid {
    /// The invariant of every grid.
    pub closed spec fn wf(&self) -> bool {
        &&& self.cells.len() == self.width * self.height
        &&& self.height > 0
        &&& self@.valid()
    }

    #[verifier::type_invariant]
    spec fn inv(self) -> bool {
        self.wf()
    }

    pub closed spec fn spec_width(&self) -> usize {
        self.width
    }

    pub closed spec fn spec_height(&self) -> usize {
        self.height
    }

    pub closed spec fn spec_start(&self) -> (usize, usize) {
        self.start
    }

    pub closed spec fn spec_end(&self) -> (usize, usize) {
        self.end
    }

    /// Number of columns.
    #[verifier::when_used_as_spec(spec_width)]
    pub fn width(&self) -> (w: usize)
        ensures
            w == self.width(),
            w == self@.width(),
    {
        proof {
            use_type_invariant(self);
        }
        self.width
    }

    /// Number of rows.
    #[verifier::when_used_as_spec(spec_height)]
    pub fn height(&self) -> (h: usize)
        ensures
            h == self.height(),
            h == self@.height(),
    {
        proof {
            use_type_invariant(self);
        }
        self.height
    }

    /// The start cell, as `(x, y)`.
    #[verifier::when_used_as_spec(spec_start)]
    pub fn start(&self) -> (p: (usize, usize))
        ensures
            p == self.start(),
            p == self@.start,
    {
        self.start
    }

    /// The end cell, as `(x, y)`.
    #[verifier::when_used_as_spec(spec_end)]
    pub fn end(&self) -> (p: (usize, usize))
        ensures
            p == self.end(),
            p == self@.end,
    {
        self.end
    }

    /// Number of cells.
    pub fn area(&self) -> (n: usize)
        ensures
            n == self@.width() * self@.height(),
            self@.valid(),
    {
        proof {
            use_type_invariant(self);
        }
        self.cells.len()
    }

    /// Looks a cell up by coordinate.
    pub fn cell(&self, x: i64, y: i64) -> (r: Result<Cell, GridError>)
        ensures
            self@.contains(x as int, y as int) ==> r == Ok::<Cell, GridError>(
                self@.cells[y as int][x as int],
            ),
            !self@.contains(x as int, y as int) ==> r == Err::<Cell, GridError>(
                GridError::OutOfBounds,
            ),
    {
        proof {
            use_type_invariant(self);
        }
        if x < 0 || y < 0 || x as u64 >= self.width as u64 || y as u64 >= self.height as u64 {
            return Err(GridError::OutOfBounds);
        }
        let ux = x as usize;
        let uy = y as usize;
        proof {
            lemma_slot_in_range(self.width as int, self.height as int, ux as int, uy as int);
        }
        Ok(self.cells[uy * self.width + ux])
    }

    /// Whether `(x, y)` is an open cell of the grid.
    pub fn is_open(&self, x: usize, y: usize) -> (b: bool)
        ensures
            b == self@.open(x as int, y as int),
            self@.valid(),
    {
        proof {
            use_type_invariant(self);
        }
        if x >= self.width || y >= self.height {
            return false;
        }
        proof {
            lemma_slot_in_range(self.width as int, self.height as int, x as int, y as int);
        }
        match self.cells[y * self.width + x] {
            Cell::Open => true,
            Cell::Wall => false,
        }
    }

    /// Builds the grid that a character matrix describes: `'#'` is a wall,
    /// the first `'S'` the start, the first `'E'` the end.
    pub fn from_rows(rows: &Vec<Vec<char>>) -> (r: Result<Grid, GridError>)
        ensures
            match r {
                Ok(g) => well_formed(views(rows@)) && g@.valid() && g@.describes(views(rows@)),
                Err(e) => e == GridError::MalformedInput && !well_formed(views(rows@)),
            },
    {
        let ghost m = views(rows@);
        if rows.len() == 0 {
            return Err(GridError::MalformedInput);
        }
        assert(m[0] == rows[0]@);
        let width = rows[0].len();
        let mut cells: Vec<Cell> = Vec::new();
        let mut y: usize = 0;
        while y < rows.len()
            invariant
                y <= rows.len(),
                m == views(rows@),
                width == m[0].len(),
                cells.len() == y * width,
                forall|k: int| 0 <= k < y ==> (#[trigger] m[k]).len() == width,
                forall|x2: int, y2: int|
                    0 <= y2 < y && 0 <= x2 < width ==> cells@[#[trigger] slot(width as int, x2, y2)]
                        == cell_of(m[y2][x2]),
            decreases rows.len() - y,
        {
            let row = &rows[y];
            assert(m[y as int] == row@);
            if row.len() != width {
                return Err(GridError::MalformedInput);
            }
            let mut x: usize = 0;
            while x < width
                invariant
                    x <= width,
                    y < rows.len(),
                    row.len() == width,
                    m == views(rows@),
                    m[y as int] == row@,
                    cells.len() == y * width + x,
                    forall|x2: int, y2: int|
                        0 <= y2 < y && 0 <= x2 < width ==> cells@[#[trigger] slot(
                            width as int,
                            x2,
                            y2,
                        )] == cell_of(m[y2][x2]),
                    forall|x2: int|
                        0 <= x2 < x ==> cells@[#[trigger] slot(width as int, x2, y as int)]
                            == cell_of(m[y as int][x2]),
                decreases width - x,
            {
                let ch = row[x];
                let cell = if ch == '#' {
                    Cell::Wall
                } else {
                    Cell::Open
                };
                proof {
                    assert forall|x2: int, y2: int| 0 <= y2 < y && 0 <= x2 < width implies slot(
                        width as int,
                        x2,
                        y2,
                    ) < cells.len() by {
                        lemma_slot_in_range(width as int, y as int, x2, y2);
                        assert(width * y == y * width) by (nonlinear_arith);
                    }
                }
                cells.push(cell);
                x += 1;
            }
            proof {
                assert((y + 1) * width == y * width + width) by (nonlinear_arith);
            }
            y += 1;
        }
        let found_start = find_node(rows, 'S');
        let found_end = find_node(rows, 'E');
        match (found_start, found_end) {
            (Some(start), Some(end)) => {
                let height = rows.len();
                proof {
                    assert(rectangular(m));
                    assert(holds(m, 'S', start.0 as int, start.1 as int));
                    assert(holds(m, 'E', end.0 as int, end.1 as int));
                    assert(cells@[slot(width as int, start.0 as int, start.1 as int)] == cell_of(
                        m[start.1 as int][start.0 as int],
                    ));
                    assert(cells@[slot(width as int, end.0 as int, end.1 as int)] == cell_of(
                        m[end.1 as int][end.0 as int],
                    ));
                    assert(width * height == cells.len()) by (nonlinear_arith)
                        requires
                            cells.len() == height * width,
                    ;
                }
                let g = Grid { width, height, cells, start, end };
                Ok(g)
            },
            _ => Err(GridError::MalformedInput),
        }
    }
}


impl Grid {
    /// The same cells with another start and end: an error if one of them
    /// lies outside the grid, or, inside it, on a wall.
    pub fn with_ends(&self, start: (usize, usize), end: (usize, usize)) -> (r: Result<Grid, GridError>)
        ensures
            match r {
                Ok(g) => g@.valid() && g@ == (Maze { cells: self@.cells, start, end }),
                Err(GridError::OutOfBounds) => !self@.contains(start.0 as int, start.1 as int)
                    || !self@.contains(end.0 as int, end.1 as int),
                Err(GridError::MalformedInput) => self@.contains(start.0 as int, start.1 as int)
                    && self@.contains(end.0 as int, end.1 as int) && (!self@.open(
                    start.0 as int,
                    start.1 as int,
                ) || !self@.open(end.0 as int, end.1 as int)),
            },
    {
        proof {
            use_type_invariant(self);
        }
        if start.0 >= self.width || start.1 >= self.height || end.0 >= self.width || end.1
            >= self.height {
            return Err(GridError::OutOfBounds);
        }
        if !self.is_open(start.0, start.1) || !self.is_open(end.0, end.1) {
            return Err(GridError::MalformedInput);
        }
        let mut cells: Vec<Cell> = Vec::new();
        let mut i: usize = 0;
        while i < self.cells.len()
            invariant
                i <= self.cells.len(),
                cells@ == self.cells@.take(i as int),
            decreases self.cells.len() - i,
        {
            cells.push(self.cells[i]);
            assert(cells@ =~= self.cells@.take(i + 1));
            i += 1;
        }
        assert(cells@ =~= self.cells@);
        let g = Grid { width: self.width, height: self.height, cells, start, end };
        assert(g@.cells =~~= self@.cells);
        Ok(g)
    }
}

} // verus!
