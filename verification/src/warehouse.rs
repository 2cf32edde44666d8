//! A warehouse in which a robot pushes boxes: single boxes that take one
//! cell, and wide boxes that take two.

use vstd::prelude::*;
use crate::race::{find_last, marked};
use crate::text::{chars_of, lines_of, split_lines, views};

verus! {

/// What a cell of the warehouse holds.
#[derive(Clone, Copy, Debug, PartialEq, Eq, Structural)]
pub enum Cell {
    Wall,
    Empty,
    Box,
    /// The left half of a wide box.
    BoxLeft,
    /// The right half of a wide box.
    BoxRight,
}

/// A place in the warehouse: column `x` of row `y`.
#[derive(Clone, Copy, Debug, PartialEq, Eq, Structural)]
pub struct Vector {
    pub x: usize,
    pub y: usize,
}

/// A move of the robot, by `x` columns and `y` rows.
#[derive(Clone, Copy, Debug, PartialEq, Eq, Structural)]
pub struct Direction {
    pub x: i8,
    pub y: i8,
}

impl Direction {
    /// The move goes one cell up, down, left or right.
    pub open spec fn unit(self) -> bool {
        (self.x == 0 && (self.y == 1 || self.y == -1)) || (self.y == 0 && (self.x == 1 || self.x == -1))
    }
}

/// The cell at column `x` of row `y`; outside the map all is wall.
pub open spec fn cell_at(map: Seq<Seq<Cell>>, x: int, y: int) -> Cell {
    if 0 <= y < map.len() && 0 <= x < map[y].len() {
        map[y][x]
    } else {
        Cell::Wall
    }
}

/// The map with the cell at column `x` of row `y` replaced; nothing is
/// written outside the map.
pub open spec fn with_cell(map: Seq<Seq<Cell>>, x: int, y: int, c: Cell) -> Seq<Seq<Cell>> {
    if 0 <= y < map.len() && 0 <= x < map[y].len() {
        map.update(y, map[y].update(x, c))
    } else {
        map
    }
}

/// Two maps have the same rows of the same lengths.
pub open spec fn same_shape(a: Seq<Seq<Cell>>, b: Seq<Seq<Cell>>) -> bool {
    a.len() == b.len() && forall|y: int| 0 <= y < a.len() ==> (#[trigger] a[y]).len() == b[y].len()
}

/// How many cells lie from `(x, y)` to the border of the map in the
/// direction `d`, the cell itself counted.
pub open spec fn room(map: Seq<Seq<Cell>>, x: int, y: int, d: Direction) -> nat {
    if !(0 <= y < map.len() && 0 <= x < map[y].len()) {
        0
    } else if d.x == 1 {
        (map[y].len() - x) as nat
    } else if d.x == -1 {
        (x + 1) as nat
    } else if d.y == 1 {
        (map.len() - y) as nat
    } else {
        (y + 1) as nat
    }
}

/// How many rows lie from row `y` to the border of the map in the
/// direction `d`, the row itself counted.
pub open spec fn depth(map: Seq<Seq<Cell>>, y: int, d: Direction) -> nat {
    if !(0 <= y < map.len()) {
        0
    } else if d.y == 1 {
        (map.len() - y) as nat
    } else {
        (y + 1) as nat
    }
}

/// How far a push of what stands at `(x, y)` can reach: sideways to the
/// end of the row, up and down to the border of the map.
pub open spec fn need(map: Seq<Seq<Cell>>, x: int, y: int, d: Direction) -> nat {
    if d.y == 0 {
        room(map, x + d.x, y, d)
    } else {
        depth(map, y + d.y, d)
    }
}

/// More fuel than a scan needs changes nothing.
pub proof fn lemma_gap_fuel(map: Seq<Seq<Cell>>, x: int, y: int, d: Direction, f1: nat, f2: nat)
    requires
        d.unit(),
        f1 >= room(map, x + d.x, y + d.y, d),
        f2 >= room(map, x + d.x, y + d.y, d),
    ensures
        gap(map, x, y, d, f1) == gap(map, x, y, d, f2),
    decreases f1,
{
    match cell_at(map, x + d.x, y + d.y) {
        Cell::Wall => {},
        Cell::Empty => {},
        _ => {
            lemma_gap_fuel(map, x + d.x, y + d.y, d, (f1 - 1) as nat, (f2 - 1) as nat);
        },
    }
}

/// The place one move from `v`.
pub fn add(v: &Vector, d: &Direction) -> (r: Vector)
    requires
        0 <= v.x + d.x <= usize::MAX,
        0 <= v.y + d.y <= usize::MAX,
    ensures
        r.x == v.x + d.x,
        r.y == v.y + d.y,
{
    Vector { x: (v.x as i128 + d.x as i128) as usize, y: (v.y as i128 + d.y as i128) as usize }
}

/// The cell at a place; outside the map all is wall.
pub fn get_cell(map: &Vec<Vec<Cell>>, pos: &Vector) -> (c: Cell)
    ensures
        c == cell_at(views(map@), pos.x as int, pos.y as int),
{
    look(map, pos.x as i128, pos.y as i128)
}

/// The cell at column `x` of row `y`.
fn look(map: &Vec<Vec<Cell>>, x: i128, y: i128) -> (c: Cell)
    ensures
        c == cell_at(views(map@), x as int, y as int),
        c != Cell::Wall ==> 0 <= x < usize::MAX && 0 <= y < usize::MAX,
{
    if x < 0 || y < 0 || y >= map.len() as i128 {
        return Cell::Wall;
    }
    let row = &map[y as usize];
    assert(views(map@)[y as int] == row@);
    if x >= row.len() as i128 {
        return Cell::Wall;
    }
    row[x as usize]
}

/// Replaces the cell at column `x` of row `y`, if the map has it.
fn put(map: &mut Vec<Vec<Cell>>, x: i128, y: i128, c: Cell)
    ensures
        views(final(map)@) == with_cell(views(old(map)@), x as int, y as int, c),
{
    if x < 0 || y < 0 || y >= map.len() as i128 {
        return ;
    }
    let ghost before = views(map@);
    assert(before[y as int] == map@[y as int]@);
    if x >= map[y as usize].len() as i128 {
        return ;
    }
    let mut row: Vec<Cell> = Vec::new();
    map.set_and_swap(y as usize, &mut row);
    row.set(x as usize, c);
    map.set(y as usize, row);
    assert(views(map@) =~= with_cell(before, x as int, y as int, c));
}

/// The first cell beyond `(x, y)` in the direction `d` that holds no box:
/// its place if it is empty, nothing if it is a wall.
pub open spec fn gap(map: Seq<Seq<Cell>>, x: int, y: int, d: Direction, fuel: nat) -> Option<(int, int)>
    decreases fuel,
{
    match cell_at(map, x + d.x, y + d.y) {
        Cell::Wall => None,
        Cell::Empty => Some((x + d.x, y + d.y)),
        _ => if fuel == 0 {
            None
        } else {
            gap(map, x + d.x, y + d.y, d, (fuel - 1) as nat)
        },
    }
}

/// What a move of the robot makes of the map and of the place of the
/// robot, where boxes take one cell: the robot stays before a wall, and
/// before a row of boxes that ends at a wall; it steps onto an empty cell;
/// and it pushes a row of boxes that ends at an empty cell, so that the
/// first box of the row comes to stand at its end.
pub open spec fn forwarded(map: Seq<Seq<Cell>>, pos: Vector, d: Direction) -> (Seq<Seq<Cell>>, (int, int)) {
    let front = (pos.x + d.x, pos.y + d.y);
    match gap(map, pos.x as int, pos.y as int, d, room(map, front.0, front.1, d)) {
        None => (map, (pos.x as int, pos.y as int)),
        Some(g) => if g == front {
            (map, front)
        } else {
            (with_cell(with_cell(map, front.0, front.1, Cell::Empty), g.0, g.1, Cell::Box), front)
        },
    }
}

/// The first gap beyond `(x, y)`.
fn find_gap(map: &Vec<Vec<Cell>>, x: i128, y: i128, dir: &Direction) -> (r: Option<(i128, i128)>)
    requires
        dir.unit(),
        -2 <= x <= usize::MAX + 1,
        -2 <= y <= usize::MAX + 1,
    ensures
        match r {
            Some(g) => gap(
                views(map@),
                x as int,
                y as int,
                *dir,
                room(views(map@), x + dir.x, y + dir.y, *dir),
            ) == Some((g.0 as int, g.1 as int)) && cell_at(views(map@), g.0 as int, g.1 as int)
                == Cell::Empty && 0 <= x + dir.x < usize::MAX && 0 <= y + dir.y < usize::MAX,
            None => gap(
                views(map@),
                x as int,
                y as int,
                *dir,
                room(views(map@), x + dir.x, y + dir.y, *dir),
            ) is None,
        },
{
    let ghost m = views(map@);
    let mut rx = x;
    let mut ry = y;
    loop
        invariant
            dir.unit(),
            m == views(map@),
            -2 <= rx <= usize::MAX + 1,
            -2 <= ry <= usize::MAX + 1,
            (rx == x && ry == y) || (0 <= x + dir.x < usize::MAX && 0 <= y + dir.y < usize::MAX),
            gap(m, x as int, y as int, *dir, room(m, x + dir.x, y + dir.y, *dir)) == gap(
                m,
                rx as int,
                ry as int,
                *dir,
                room(m, rx + dir.x, ry + dir.y, *dir),
            ),
        decreases room(m, rx + dir.x, ry + dir.y, *dir),
    {
        let nx = rx + dir.x as i128;
        let ny = ry + dir.y as i128;
        match look(map, nx, ny) {
            Cell::Wall => {
                return None;
            },
            Cell::Empty => {
                return Some((nx, ny));
            },
            _ => {
                proof {
                    lemma_gap_fuel(
                        m,
                        nx as int,
                        ny as int,
                        *dir,
                        (room(m, nx as int, ny as int, *dir) - 1) as nat,
                        room(m, nx + dir.x, ny + dir.y, *dir),
                    );
                }
                rx = nx;
                ry = ny;
            },
        }
    }
}

/// Moves the robot by one move where boxes take one cell, and returns its
/// new place.
pub fn forward(map: &mut Vec<Vec<Cell>>, pos: &Vector, dir: &Direction) -> (r: Vector)
    requires
        dir.unit(),
    ensures
        views(final(map)@) == forwarded(views(old(map)@), *pos, *dir).0,
        (r.x as int, r.y as int) == forwarded(views(old(map)@), *pos, *dir).1,
{
    let fx = pos.x as i128 + dir.x as i128;
    let fy = pos.y as i128 + dir.y as i128;
    match find_gap(map, pos.x as i128, pos.y as i128, dir) {
        None => *pos,
        Some(g) => {
            if !(g.0 == fx && g.1 == fy) {
                put(map, fx, fy, Cell::Empty);
                put(map, g.0, g.1, Cell::Box);
            }
            Vector { x: fx as usize, y: fy as usize }
        },
    }
}

/// The cell holds half of a wide box.
pub open spec fn is_half(c: Cell) -> bool {
    c == Cell::BoxLeft || c == Cell::BoxRight
}

/// The column of the other half of the wide box at `(x, y)`.
pub open spec fn other_half(map: Seq<Seq<Cell>>, x: int, y: int) -> int {
    if cell_at(map, x, y) == Cell::BoxLeft {
        x + 1
    } else {
        x - 1
    }
}

/// Whether what stands at `(x, y)` can be pushed in the direction `d`.
/// Sideways, a row of boxes can be pushed if it ends at an empty cell. Up
/// and down, a wide box can be pushed if the two cells before it are empty,
/// or hold no wall and no half of a box that cannot be pushed.
pub open spec fn movable(map: Seq<Seq<Cell>>, x: int, y: int, d: Direction, fuel: nat) -> bool
    decreases fuel,
{
    if d.y == 0 {
        match cell_at(map, x + d.x, y) {
            Cell::Empty => true,
            Cell::Wall => false,
            _ => fuel > 0 && movable(map, x + d.x, y, d, (fuel - 1) as nat),
        }
    } else {
        let other = other_half(map, x, y);
        let first = cell_at(map, x, y + d.y);
        let second = cell_at(map, other, y + d.y);
        if first == Cell::Empty && second == Cell::Empty {
            true
        } else if first == Cell::Wall || second == Cell::Wall {
            false
        } else if is_half(first) && !(fuel > 0 && movable(map, x, y + d.y, d, (fuel - 1) as nat)) {
            false
        } else if is_half(second) && !(fuel > 0 && movable(
            map,
            other,
            y + d.y,
            d,
            (fuel - 1) as nat,
        )) {
            false
        } else {
            true
        }
    }
}

/// Whether what stands at `(x, y)` can be pushed.
fn can_move_at(map: &Vec<Vec<Cell>>, x: i128, y: i128, dir: &Direction, Ghost(fuel): Ghost<nat>) -> (b:
    bool)
    requires
        dir.unit(),
        -2 <= x <= usize::MAX + 1,
        -2 <= y <= usize::MAX + 1,
        fuel >= need(views(map@), x as int, y as int, *dir),
    ensures
        b == movable(views(map@), x as int, y as int, *dir, fuel),
    decreases fuel,
{
    let ghost m = views(map@);
    if dir.y == 0 {
        let fx = x + dir.x as i128;
        match look(map, fx, y) {
            Cell::Empty => true,
            Cell::Wall => false,
            _ => can_move_at(map, fx, y, dir, Ghost((fuel - 1) as nat)),
        }
    } else {
        let cell = look(map, x, y);
        let other = match cell {
            Cell::BoxLeft => x + 1,
            _ => x - 1,
        };
        let fy = y + dir.y as i128;
        let first_cell = look(map, x, fy);
        let second_cell = look(map, other, fy);
        if first_cell == Cell::Empty && second_cell == Cell::Empty {
            return true;
        }
        if first_cell == Cell::Wall || second_cell == Cell::Wall {
            return false;
        }
        proof {
            // both cells lie on the map, one row nearer to its border
            assert(depth(m, fy as int, *dir) >= 1);
        }
        if (first_cell == Cell::BoxLeft || first_cell == Cell::BoxRight) && !can_move_at(
            map,
            x,
            fy,
            dir,
            Ghost((fuel - 1) as nat),
        ) {
            return false;
        }
        if (second_cell == Cell::BoxLeft || second_cell == Cell::BoxRight) && !can_move_at(
            map,
            other,
            fy,
            dir,
            Ghost((fuel - 1) as nat),
        ) {
            return false;
        }
        true
    }
}

/// Whether the box at `pos` can be pushed in the direction `dir`.
pub fn can_move_rec(map: &Vec<Vec<Cell>>, pos: &Vector, dir: &Direction) -> (b: bool)
    requires
        dir.unit(),
    ensures
        b == movable(
            views(map@),
            pos.x as int,
            pos.y as int,
            *dir,
            need(views(map@), pos.x as int, pos.y as int, *dir),
        ),
{
    can_move_at(
        map,
        pos.x as i128,
        pos.y as i128,
        dir,
        Ghost(need(views(map@), pos.x as int, pos.y as int, *dir)),
    )
}

/// The map after the wide box whose left half stands at `(x, y)` has moved
/// one cell to the left.
pub open spec fn box_left(map: Seq<Seq<Cell>>, x: int, y: int) -> Seq<Seq<Cell>> {
    with_cell(
        with_cell(with_cell(map, x - 1, y, Cell::BoxLeft), x, y, Cell::BoxRight),
        x + 1,
        y,
        Cell::Empty,
    )
}

/// The map after the wide box whose right half stands at `(x, y)` has
/// moved one cell to the right.
pub open spec fn box_right(map: Seq<Seq<Cell>>, x: int, y: int) -> Seq<Seq<Cell>> {
    with_cell(
        with_cell(with_cell(map, x + 1, y, Cell::BoxRight), x, y, Cell::BoxLeft),
        x - 1,
        y,
        Cell::Empty,
    )
}

/// Moves a wide box one cell to the left.
pub fn move_box_left(map: &mut Vec<Vec<Cell>>, from: &Vector)
    ensures
        views(final(map)@) == box_left(views(old(map)@), from.x as int, from.y as int),
{
    shift_left(map, from.x as i128, from.y as i128);
}

/// Moves a wide box one cell to the right.
pub fn move_box_right(map: &mut Vec<Vec<Cell>>, pos: &Vector)
    ensures
        views(final(map)@) == box_right(views(old(map)@), pos.x as int, pos.y as int),
{
    shift_right(map, pos.x as i128, pos.y as i128);
}

fn shift_left(map: &mut Vec<Vec<Cell>>, x: i128, y: i128)
    requires
        -2 <= x <= usize::MAX + 1,
    ensures
        views(final(map)@) == box_left(views(old(map)@), x as int, y as int),
{
    put(map, x - 1, y, Cell::BoxLeft);
    put(map, x, y, Cell::BoxRight);
    put(map, x + 1, y, Cell::Empty);
}

fn shift_right(map: &mut Vec<Vec<Cell>>, x: i128, y: i128)
    requires
        -2 <= x <= usize::MAX + 1,
    ensures
        views(final(map)@) == box_right(views(old(map)@), x as int, y as int),
{
    put(map, x + 1, y, Cell::BoxRight);
    put(map, x, y, Cell::BoxLeft);
    put(map, x - 1, y, Cell::Empty);
}

/// The map after the halves of a box have been shifted sideways.
pub open spec fn shifted(map: Seq<Seq<Cell>>, x: int, y: int, d: Direction) -> Seq<Seq<Cell>> {
    if d.x == -1 {
        box_left(map, x, y)
    } else if d.x == 1 {
        box_right(map, x, y)
    } else {
        map
    }
}

/// The map after what stands at `(x, y)` has been pushed in the direction
/// `d`, with all that stands in its way. Sideways, the box before the cell
/// is pushed first and the halves at the cell are shifted after it. Up and
/// down, the halves of boxes that stand before the two halves of the box
/// are pushed first, then the box moves into their place.
pub open spec fn pushed(map: Seq<Seq<Cell>>, x: int, y: int, d: Direction, fuel: nat) -> Seq<Seq<Cell>>
    decreases fuel, 1int,
{
    if d.y == 0 {
        let front = cell_at(map, x + d.x, y);
        if front == Cell::Empty {
            shifted(map, x, y, d)
        } else if (front == Cell::BoxLeft && d.x == -1) || (front == Cell::BoxRight && d.x == 1) {
            if fuel == 0 {
                map
            } else {
                pushed(map, x + d.x, y, d, (fuel - 1) as nat)
            }
        } else if is_half(front) {
            if fuel == 0 {
                map
            } else {
                shifted(pushed(map, x + d.x, y, d, (fuel - 1) as nat), x, y, d)
            }
        } else {
            map
        }
    } else {
        let cell = cell_at(map, x, y);
        let other = other_half(map, x, y);
        let other_cell = cell_at(map, other, y);
        let first = cell_at(map, x, y + d.y);
        let second = cell_at(map, other, y + d.y);
        let cleared = cleared(map, x, y, d, fuel);
        with_cell(
            with_cell(
                with_cell(with_cell(cleared, x, y + d.y, cell), other, y + d.y, other_cell),
                x,
                y,
                Cell::Empty,
            ),
            other,
            y,
            Cell::Empty,
        )
    }
}

/// Writing a cell keeps the shape of the map.
pub proof fn lemma_with_cell_shape(map: Seq<Seq<Cell>>, x: int, y: int, c: Cell)
    ensures
        same_shape(map, with_cell(map, x, y, c)),
{
}

/// Having the same shape carries over.
pub proof fn lemma_shape_trans(a: Seq<Seq<Cell>>, b: Seq<Seq<Cell>>, c: Seq<Seq<Cell>>)
    requires
        same_shape(a, b),
        same_shape(b, c),
    ensures
        same_shape(a, c),
{
    assert forall|y: int| 0 <= y < a.len() implies (#[trigger] a[y]).len() == c[y].len() by {
        assert(a[y].len() == b[y].len());
        assert(b[y].len() == c[y].len());
    }
}

/// Shifting the halves of a box keeps the shape of the map.
pub proof fn lemma_shifted_shape(map: Seq<Seq<Cell>>, x: int, y: int, d: Direction)
    ensures
        same_shape(map, shifted(map, x, y, d)),
{
    if d.x == -1 {
        let a = with_cell(map, x - 1, y, Cell::BoxLeft);
        let b = with_cell(a, x, y, Cell::BoxRight);
        let c = with_cell(b, x + 1, y, Cell::Empty);
        lemma_with_cell_shape(map, x - 1, y, Cell::BoxLeft);
        lemma_with_cell_shape(a, x, y, Cell::BoxRight);
        lemma_with_cell_shape(b, x + 1, y, Cell::Empty);
        lemma_shape_trans(map, a, b);
        lemma_shape_trans(map, b, c);
    } else if d.x == 1 {
        let a = with_cell(map, x + 1, y, Cell::BoxRight);
        let b = with_cell(a, x, y, Cell::BoxLeft);
        let c = with_cell(b, x - 1, y, Cell::Empty);
        lemma_with_cell_shape(map, x + 1, y, Cell::BoxRight);
        lemma_with_cell_shape(a, x, y, Cell::BoxLeft);
        lemma_with_cell_shape(b, x - 1, y, Cell::Empty);
        lemma_shape_trans(map, a, b);
        lemma_shape_trans(map, b, c);
    }
}

/// What is cleared before a box that is pushed up or down.
pub open spec fn cleared(map: Seq<Seq<Cell>>, x: int, y: int, d: Direction, fuel: nat) -> Seq<Seq<Cell>>
    decreases fuel, 0int,
{
    let cell = cell_at(map, x, y);
    let other = other_half(map, x, y);
    let other_cell = cell_at(map, other, y);
    let first = cell_at(map, x, y + d.y);
    let second = cell_at(map, other, y + d.y);
    let next = (fuel - 1) as nat;
    if (first == Cell::Empty && second == Cell::Empty) || fuel == 0 {
        map
    } else if cell == second && other_cell == first {
        let once = if is_half(first) {
            pushed(map, x, y + d.y, d, next)
        } else {
            map
        };
        if is_half(second) {
            pushed(once, other, y + d.y, d, next)
        } else {
            once
        }
    } else if cell == second {
        if is_half(second) {
            pushed(map, other, y + d.y, d, next)
        } else {
            map
        }
    } else {
        if is_half(first) {
            pushed(map, x, y + d.y, d, next)
        } else {
            map
        }
    }
}

/// Pushing keeps the shape of the map.
pub proof fn lemma_pushed_shape(map: Seq<Seq<Cell>>, x: int, y: int, d: Direction, fuel: nat)
    ensures
        same_shape(map, pushed(map, x, y, d, fuel)),
    decreases fuel, 1int,
{
    if d.y == 0 {
        let front = cell_at(map, x + d.x, y);
        if front == Cell::Empty {
            lemma_shifted_shape(map, x, y, d);
        } else if (front == Cell::BoxLeft && d.x == -1) || (front == Cell::BoxRight && d.x == 1) {
            if fuel > 0 {
                lemma_pushed_shape(map, x + d.x, y, d, (fuel - 1) as nat);
            }
        } else if is_half(front) {
            if fuel > 0 {
                let m1 = pushed(map, x + d.x, y, d, (fuel - 1) as nat);
                lemma_pushed_shape(map, x + d.x, y, d, (fuel - 1) as nat);
                lemma_shifted_shape(m1, x, y, d);
                lemma_shape_trans(map, m1, shifted(m1, x, y, d));
            }
        }
    } else {
        let cell = cell_at(map, x, y);
        let other = other_half(map, x, y);
        let other_cell = cell_at(map, other, y);
        let c0 = cleared(map, x, y, d, fuel);
        lemma_cleared_shape(map, x, y, d, fuel);
        let c1 = with_cell(c0, x, y + d.y, cell);
        let c2 = with_cell(c1, other, y + d.y, other_cell);
        let c3 = with_cell(c2, x, y, Cell::Empty);
        let c4 = with_cell(c3, other, y, Cell::Empty);
        lemma_with_cell_shape(c0, x, y + d.y, cell);
        lemma_with_cell_shape(c1, other, y + d.y, other_cell);
        lemma_with_cell_shape(c2, x, y, Cell::Empty);
        lemma_with_cell_shape(c3, other, y, Cell::Empty);
        lemma_shape_trans(map, c0, c1);
        lemma_shape_trans(map, c1, c2);
        lemma_shape_trans(map, c2, c3);
        lemma_shape_trans(map, c3, c4);
        assert(pushed(map, x, y, d, fuel) == c4);
    }
}

/// Clearing keeps the shape of the map.
pub proof fn lemma_cleared_shape(map: Seq<Seq<Cell>>, x: int, y: int, d: Direction, fuel: nat)
    ensures
        same_shape(map, cleared(map, x, y, d, fuel)),
    decreases fuel, 0int,
{
    let cell = cell_at(map, x, y);
    let other = other_half(map, x, y);
    let other_cell = cell_at(map, other, y);
    let first = cell_at(map, x, y + d.y);
    let second = cell_at(map, other, y + d.y);
    let next = (fuel - 1) as nat;
    if (first == Cell::Empty && second == Cell::Empty) || fuel == 0 {
    } else if cell == second && other_cell == first {
        let once = if is_half(first) {
            pushed(map, x, y + d.y, d, next)
        } else {
            map
        };
        if is_half(first) {
            lemma_pushed_shape(map, x, y + d.y, d, next);
        }
        if is_half(second) {
            lemma_pushed_shape(once, other, y + d.y, d, next);
            lemma_shape_trans(map, once, pushed(once, other, y + d.y, d, next));
        }
    } else if cell == second {
        if is_half(second) {
            lemma_pushed_shape(map, other, y + d.y, d, next);
        }
    } else {
        if is_half(first) {
            lemma_pushed_shape(map, x, y + d.y, d, next);
        }
    }
}

/// Pushes what stands at `(x, y)`.
fn move_at(map: &mut Vec<Vec<Cell>>, x: i128, y: i128, dir: &Direction, Ghost(fuel): Ghost<nat>)
    requires
        dir.unit(),
        -2 <= x <= usize::MAX + 1,
        -2 <= y <= usize::MAX + 1,
        fuel >= need(views(old(map)@), x as int, y as int, *dir),
    ensures
        views(final(map)@) == pushed(views(old(map)@), x as int, y as int, *dir, fuel),
        same_shape(views(old(map)@), views(final(map)@)),
    decreases fuel,
{
    let ghost m = views(map@);
    proof {
        lemma_pushed_shape(m, x as int, y as int, *dir, fuel);
    }
    let cell = look(map, x, y);
    if dir.y == 0 {
        let fx = x + dir.x as i128;
        let front_cell = look(map, fx, y);
        if front_cell == Cell::Empty {
            if dir.x == -1 {
                shift_left(map, x, y);
            } else if dir.x == 1 {
                shift_right(map, x, y);
            }
            return ;
        }
        if (front_cell == Cell::BoxLeft && dir.x == -1) || (front_cell == Cell::BoxRight && dir.x == 1) {
            move_at(map, fx, y, dir, Ghost((fuel - 1) as nat));
            return ;
        }
        if front_cell == Cell::BoxLeft || front_cell == Cell::BoxRight {
            move_at(map, fx, y, dir, Ghost((fuel - 1) as nat));
            if dir.x == -1 {
                shift_left(map, x, y);
            } else if dir.x == 1 {
                shift_right(map, x, y);
            }
            return ;
        }
    } else {
        let other = match cell {
            Cell::BoxLeft => x + 1,
            _ => x - 1,
        };
        let other_cell = look(map, other, y);
        let fy = y + dir.y as i128;
        let first_cell = look(map, x, fy);
        let second_cell = look(map, other, fy);
        let first_half = first_cell == Cell::BoxLeft || first_cell == Cell::BoxRight;
        let second_half = second_cell == Cell::BoxLeft || second_cell == Cell::BoxRight;
        proof {
            if first_half || second_half {
                assert(depth(m, fy as int, *dir) >= 1);
            }
        }
        if first_cell == Cell::Empty && second_cell == Cell::Empty {
        } else if cell == second_cell && other_cell == first_cell {
            if first_half {
                move_at(map, x, fy, dir, Ghost((fuel - 1) as nat));
            }
            if second_half {
                move_at(map, other, fy, dir, Ghost((fuel - 1) as nat));
            }
        } else if cell == second_cell {
            if second_half {
                move_at(map, other, fy, dir, Ghost((fuel - 1) as nat));
            }
        } else {
            if first_half {
                move_at(map, x, fy, dir, Ghost((fuel - 1) as nat));
            }
        }
        assert(views(map@) == cleared(m, x as int, y as int, *dir, fuel));
        put(map, x, fy, cell);
        put(map, other, fy, other_cell);
        put(map, x, y, Cell::Empty);
        put(map, other, y, Cell::Empty);
    }
}

/// Pushes the box at `pos` in the direction `dir`, with all that stands in
/// its way.
pub fn move_rec(map: &mut Vec<Vec<Cell>>, pos: &Vector, dir: &Direction)
    requires
        dir.unit(),
    ensures
        views(final(map)@) == pushed(
            views(old(map)@),
            pos.x as int,
            pos.y as int,
            *dir,
            need(views(old(map)@), pos.x as int, pos.y as int, *dir),
        ),
{
    move_at(
        map,
        pos.x as i128,
        pos.y as i128,
        dir,
        Ghost(need(views(map@), pos.x as int, pos.y as int, *dir)),
    );
}

/// What a move of the robot makes of the map and of the place of the
/// robot, where boxes are wide: the robot stays before a wall and before
/// what cannot be pushed; it steps onto an empty cell; else it pushes what
/// stands before it and steps after it.
pub open spec fn forwarded2(map: Seq<Seq<Cell>>, pos: Vector, d: Direction) -> (Seq<Seq<Cell>>, (int, int)) {
    let front = (pos.x + d.x, pos.y + d.y);
    let cell = cell_at(map, front.0, front.1);
    let fuel = need(map, front.0, front.1, d);
    if cell == Cell::Wall {
        (map, (pos.x as int, pos.y as int))
    } else if cell == Cell::Empty {
        (map, front)
    } else if !movable(map, front.0, front.1, d, fuel) {
        (map, (pos.x as int, pos.y as int))
    } else {
        (pushed(map, front.0, front.1, d, fuel), front)
    }
}

/// Moves the robot by one move where boxes are wide, and returns its new
/// place.
pub fn forward2(map: &mut Vec<Vec<Cell>>, pos: &Vector, dir: &Direction) -> (r: Vector)
    requires
        dir.unit(),
    ensures
        views(final(map)@) == forwarded2(views(old(map)@), *pos, *dir).0,
        (r.x as int, r.y as int) == forwarded2(views(old(map)@), *pos, *dir).1,
{
    let fx = pos.x as i128 + dir.x as i128;
    let fy = pos.y as i128 + dir.y as i128;
    let cell = look(map, fx, fy);
    if cell == Cell::Wall {
        return *pos;
    }
    let front = Vector { x: fx as usize, y: fy as usize };
    if cell == Cell::Empty {
        return front;
    }
    if !can_move_rec(map, &front, dir) {
        return *pos;
    }
    move_rec(map, &front, dir);
    front
}


/// A warehouse, the place of the robot in it, and the moves it is to make.
pub struct Problem {
    pub robot: Vector,
    pub map: Vec<Vec<Cell>>,
    pub moves: Vec<Direction>,
}

/// What a character of the map stands for, where boxes take one cell.
pub open spec fn cell_of(c: char) -> Option<Cell> {
    if c == '.' || c == '@' {
        Some(Cell::Empty)
    } else if c == '#' {
        Some(Cell::Wall)
    } else if c == 'O' {
        Some(Cell::Box)
    } else {
        None
    }
}

/// What a character of the map stands for in the column `x` of a map on
/// which everything is twice as wide.
pub open spec fn wide_cell_of(c: char, x: int) -> Option<Cell> {
    match cell_of(c) {
        Some(Cell::Box) => if x % 2 == 0 {
            Some(Cell::BoxLeft)
        } else {
            Some(Cell::BoxRight)
        },
        other => other,
    }
}

/// The move that a character stands for.
pub open spec fn move_of(c: char) -> Option<Direction> {
    if c == '^' {
        Some(Direction { x: 0, y: -1i8 })
    } else if c == '>' {
        Some(Direction { x: 1, y: 0 })
    } else if c == 'v' {
        Some(Direction { x: 0, y: 1 })
    } else if c == '<' {
        Some(Direction { x: -1i8, y: 0 })
    } else {
        None
    }
}

/// How many lines stand before the first empty line.
pub open spec fn grid_rows(lines: Seq<Seq<char>>) -> int
    decreases lines.len(),
{
    if lines.len() == 0 || lines[0].len() == 0 {
        0
    } else {
        1 + grid_rows(lines.drop_first())
    }
}

pub proof fn lemma_grid_rows(lines: Seq<Seq<char>>, n: int)
    requires
        0 <= n <= lines.len(),
        forall|k: int| 0 <= k < n ==> (#[trigger] lines[k]).len() > 0,
        n == lines.len() || lines[n].len() == 0,
    ensures
        grid_rows(lines) == n,
    decreases lines.len(),
{
    if n > 0 {
        let t = lines.drop_first();
        assert(lines[0].len() > 0);
        assert forall|k: int| 0 <= k < n - 1 implies (#[trigger] t[k]).len() > 0 by {
            assert(t[k] == lines[k + 1]);
        }
        lemma_grid_rows(t, n - 1);
    }
}

/// The character at column `j` of row `i` of the map can be read: it
/// stands for something, and the map, as long and as wide as the first line
/// is long, has room for it.
pub open spec fn readable(lines: Seq<Seq<char>>, i: int, j: int) -> bool {
    i < lines[0].len() && j < lines[0].len() && cell_of(lines[i][j]) is Some
}

/// All characters of the map can be read.
pub open spec fn all_readable(lines: Seq<Seq<char>>) -> bool {
    forall|i: int, j: int|
        0 <= i < grid_rows(lines) && 0 <= j < lines[i].len() ==> #[trigger] readable(lines, i, j)
}

/// The moves that the characters of the lines from `from` on stand for;
/// nothing if one stands for none.
pub open spec fn moves_of(lines: Seq<Seq<char>>, from: int) -> Option<Seq<Direction>>
    decreases lines.len() - from,
{
    if from < 0 || from >= lines.len() {
        Some(Seq::empty())
    } else {
        match (line_moves(lines[from], lines[from].len() as int), moves_of(lines, from + 1)) {
            (Some(a), Some(b)) => Some(a + b),
            _ => None,
        }
    }
}

/// The moves that the first `n` characters of a line stand for.
pub open spec fn line_moves(line: Seq<char>, n: int) -> Option<Seq<Direction>>
    decreases n,
{
    if n <= 0 {
        Some(Seq::empty())
    } else {
        match (line_moves(line, n - 1), move_of(line[n - 1])) {
            (Some(a), Some(d)) => Some(a.push(d)),
            _ => None,
        }
    }
}

/// The cell at column `x` of row `y` of the map that the lines describe.
pub open spec fn described(lines: Seq<Seq<char>>, doubled: bool, x: int, y: int) -> Cell {
    let j = if doubled {
        x / 2
    } else {
        x
    };
    if 0 <= y < grid_rows(lines) && 0 <= j < lines[y].len() {
        (if doubled {
            wide_cell_of(lines[y][j], x)
        } else {
            cell_of(lines[y][j])
        }).unwrap()
    } else {
        Cell::Empty
    }
}

/// The text describes a problem.
pub open spec fn well_formed(lines: Seq<Seq<char>>, doubled: bool) -> bool {
    &&& lines.len() > 0
    &&& all_readable(lines)
    &&& moves_of(lines, lines[0].len() as int) is Some
    &&& (doubled ==> 2 * lines[0].len() <= usize::MAX)
}

/// The problem is the one that the lines describe.
pub open spec fn describes(p: &Problem, lines: Seq<Seq<char>>, doubled: bool) -> bool {
    let n = lines[0].len();
    let w = if doubled {
        2 * n
    } else {
        n
    };
    &&& views(p.map@).len() == n
    &&& forall|y: int| 0 <= y < n ==> (#[trigger] views(p.map@)[y]).len() == w
    &&& forall|x: int, y: int|
        0 <= y < n && 0 <= x < w ==> #[trigger] views(p.map@)[y][x] == described(lines, doubled, x, y)
    &&& Some(p.moves@) == moves_of(lines, n as int)
    &&& exists|at: (usize, usize)|
        #![trigger marked(lines.take(grid_rows(lines)), '@', at)]
        marked(lines.take(grid_rows(lines)), '@', at) && p.robot.y == at.0 && p.robot.x == (
        if doubled {
            2 * at.1
        } else {
            at.1 as int
        })
}

/// Reads the moves of one line.
fn parse_moves(line: &Vec<char>, moves: &mut Vec<Direction>) -> (ok: bool)
    ensures
        match line_moves(line@, line.len() as int) {
            Some(m) => ok && final(moves)@ == old(moves)@ + m,
            None => !ok,
        },
        forall|k: int| 0 <= k < old(moves)@.len() ==> final(moves)@[k] == old(moves)@[k],
        (forall|k: int| 0 <= k < old(moves)@.len() ==> (#[trigger] old(moves)@[k]).unit()) ==> (forall|
            k: int,
        | 0 <= k < final(moves)@.len() ==> (#[trigger] final(moves)@[k]).unit()),
{
    let ghost start = moves@;
    let mut i: usize = 0;
    assert(moves@ =~= start + Seq::<Direction>::empty());
    while i < line.len()
        invariant
            i <= line.len(),
            start == old(moves)@,
            moves@.len() >= start.len(),
            forall|k: int| 0 <= k < start.len() ==> moves@[k] == start[k],
            forall|k: int| start.len() <= k < moves@.len() ==> (#[trigger] moves@[k]).unit(),
            match line_moves(line@, i as int) {
                Some(m) => moves@ == start + m,
                None => false,
            },
        decreases line.len() - i,
    {
        let c = line[i];
        let d = if c == '^' {
            Direction { x: 0, y: -1 }
        } else if c == '>' {
            Direction { x: 1, y: 0 }
        } else if c == 'v' {
            Direction { x: 0, y: 1 }
        } else if c == '<' {
            Direction { x: -1, y: 0 }
        } else {
            proof {
                assert(line_moves(line@, i + 1) is None);
                lemma_line_moves_stuck(line@, i + 1, line.len() as int);
            }
            return false;
        };
        proof {
            let m = line_moves(line@, i as int).unwrap();
            assert(moves@.push(d) =~= start + m.push(d));
        }
        moves.push(d);
        i += 1;
    }
    true
}

pub proof fn lemma_line_moves_stuck(line: Seq<char>, a: int, b: int)
    requires
        a <= b,
        line_moves(line, a) is None,
    ensures
        line_moves(line, b) is None,
    decreases b - a,
{
    if a < b {
        lemma_line_moves_stuck(line, a, b - 1);
    }
}

/// Reads a problem from text: the map, as many rows as its first line is
/// long, then the moves on the lines after those rows. With `doubled`,
/// everything on the map but the robot is twice as wide.
pub fn parse_input(content: &str, doubled: bool) -> (r: Option<Problem>)
    ensures
        match r {
            Some(p) => well_formed(lines_of(content@), doubled) && describes(
                &p,
                lines_of(content@),
                doubled,
            ) && forall|k: int| 0 <= k < p.moves@.len() ==> (#[trigger] p.moves@[k]).unit(),
            None => !well_formed(lines_of(content@), doubled),
        },
{
    let text = chars_of(content);
    let lines = split_lines(&text);
    let ghost all = views(lines@);
    if lines.len() == 0 {
        return None;
    }
    let n = lines[0].len();
    assert(all[0] == lines@[0]@);
    let width = if doubled {
        match n.checked_mul(2) {
            Some(w) => w,
            None => {
                return None;
            },
        }
    } else {
        n
    };
    let mut rows: usize = 0;
    while rows < lines.len() && lines[rows].len() > 0
        invariant
            rows <= lines.len(),
            all == views(lines@),
            forall|k: int| 0 <= k < rows ==> (#[trigger] all[k]).len() > 0,
        decreases lines.len() - rows,
    {
        assert(all[rows as int] == lines@[rows as int]@);
        rows += 1;
    }
    proof {
        if rows < lines.len() {
            assert(all[rows as int] == lines@[rows as int]@);
        }
        lemma_grid_rows(all, rows as int);
    }
    let mut map: Vec<Vec<Cell>> = Vec::new();
    let mut y: usize = 0;
    while y < n
        invariant
            y <= n,
            all == views(lines@),
            all == lines_of(content@),
            lines.len() > 0,
            n == all[0].len(),
            rows == grid_rows(all),
            rows <= lines.len(),
            width == (if doubled {
                2 * n
            } else {
                n as int
            }),
            map.len() == y,
            forall|k: int| 0 <= k < y ==> (#[trigger] views(map@)[k]).len() == width,
            forall|x: int, k: int|
                0 <= k < y && 0 <= x < width ==> #[trigger] views(map@)[k][x] == described(
                    all,
                    doubled,
                    x,
                    k,
                ),
            forall|i: int, j: int|
                0 <= i < rows && i < y && 0 <= j < all[i].len() ==> #[trigger] readable(all, i, j),
        decreases n - y,
    {
        let mut row: Vec<Cell> = Vec::new();
        let mut x: usize = 0;
        if y < rows {
            assert(all[y as int] == lines@[y as int]@);
            if lines[y].len() > n {
                assert(!readable(all, y as int, n as int));
                return None;
            }
        }
        while x < width
            invariant
                x <= width,
                y < n,
                all == views(lines@),
                all == lines_of(content@),
                lines.len() > 0,
                n == all[0].len(),
                rows == grid_rows(all),
                rows <= lines.len(),
                y < rows ==> all[y as int].len() <= n,
                width == (if doubled {
                    2 * n
                } else {
                    n as int
                }),
                row.len() == x,
                forall|k: int| 0 <= k < x ==> #[trigger] row@[k] == described(all, doubled, k, y as int),
                forall|j: int|
                    y < rows && 0 <= j < all[y as int].len() && j < (if doubled {
                        (x as int + 1) / 2
                    } else {
                        x as int
                    }) ==> #[trigger] readable(all, y as int, j),
            decreases width - x,
        {
            let j = if doubled {
                x / 2
            } else {
                x
            };
            let mut cell = Cell::Empty;
            if y < rows {
                assert(all[y as int] == lines@[y as int]@);
                if j < lines[y].len() {
                    let c = lines[y][j];
                    if c == '.' || c == '@' {
                        cell = Cell::Empty;
                    } else if c == '#' {
                        cell = Cell::Wall;
                    } else if c == 'O' {
                        cell = if !doubled {
                            Cell::Box
                        } else if x % 2 == 0 {
                            Cell::BoxLeft
                        } else {
                            Cell::BoxRight
                        };
                    } else {
                        assert(!readable(all, y as int, j as int));
                        return None;
                    }
                    assert(readable(all, y as int, j as int));
                }
            }
            row.push(cell);
            x += 1;
        }
        proof {
            assert forall|j: int| y < rows && 0 <= j < all[y as int].len() implies #[trigger] readable(
                all,
                y as int,
                j,
            ) by {
                if doubled {
                    assert(j < (width as int + 1) / 2);
                }
            }
            assert(views(map@.push(row)) =~= views(map@).push(row@));
        }
        map.push(row);
        y += 1;
    }
    if rows > n {
        assert(!readable(all, n as int, 0));
        return None;
    }
    assert(all_readable(all));
    let mut moves: Vec<Direction> = Vec::new();
    let mut k: usize = lines.len();
    proof {
        assert(moves_of(all, k as int) == Some(moves@));
    }
    while k > n
        invariant
            k <= lines.len(),
            all == views(lines@),
            all == lines_of(content@),
            lines.len() > 0,
            n == all[0].len(),
            k >= n || k == lines.len(),
            moves_of(all, k as int) == Some(moves@),
            forall|i: int| 0 <= i < moves@.len() ==> (#[trigger] moves@[i]).unit(),
        decreases k,
    {
        k -= 1;
        let mut line_m: Vec<Direction> = Vec::new();
        assert(all[k as int] == lines@[k as int]@);
        if !parse_moves(&lines[k], &mut line_m) {
            proof {
                lemma_moves_stuck(all, k as int, n as int);
            }
            return None;
        }
        proof {
            assert(line_m@ =~= line_moves(all[k as int], all[k as int].len() as int).unwrap());
        }
        line_m.append(&mut moves);
        moves = line_m;
    }
    proof {
        if k < n {
            assert(k == lines.len());
            lemma_moves_beyond(all, n as int);
        }
    }
    let at = find_last_in(&lines, rows, '@');
    let robot = Vector {
        x: if doubled {
            proof {
                if crate::maze::grid::occurs(all.take(rows as int), '@') {
                    assert(readable(all, at.0 as int, at.1 as int));
                }
            }
            2 * at.1
        } else {
            at.1
        },
        y: at.0,
    };
    Some(Problem { robot, map, moves })
}

/// No moves are read if the moves of a later line cannot be read.
pub proof fn lemma_moves_stuck(lines: Seq<Seq<char>>, k: int, from: int)
    requires
        0 <= from <= k < lines.len(),
        line_moves(lines[k], lines[k].len() as int) is None,
    ensures
        moves_of(lines, from) is None,
    decreases k - from,
{
    if from < k {
        lemma_moves_stuck(lines, k, from + 1);
    }
}

/// There are no moves beyond the last line.
pub proof fn lemma_moves_beyond(lines: Seq<Seq<char>>, from: int)
    requires
        from >= lines.len(),
    ensures
        moves_of(lines, from) == Some(Seq::<Direction>::empty()),
{
}

/// The last place where `target` stands in the first `rows` lines.
fn find_last_in(lines: &Vec<Vec<char>>, rows: usize, target: char) -> (p: (usize, usize))
    requires
        rows <= lines.len(),
    ensures
        marked(views(lines@).take(rows as int), target, p),
{
    let mut head: Vec<Vec<char>> = Vec::new();
    let mut i: usize = 0;
    while i < rows
        invariant
            i <= rows <= lines.len(),
            views(head@) == views(lines@).take(i as int),
        decreases rows - i,
    {
        let mut row: Vec<char> = Vec::new();
        let mut j: usize = 0;
        while j < lines[i].len()
            invariant
                j <= lines[i as int].len(),
                i < lines.len(),
                row@ == lines@[i as int]@.take(j as int),
            decreases lines[i as int].len() - j,
        {
            row.push(lines[i][j]);
            assert(row@ =~= lines@[i as int]@.take(j + 1));
            j += 1;
        }
        assert(row@ =~= lines@[i as int]@);
        proof {
            crate::text::lemma_views_push(head@, row);
            assert(views(lines@).take(i + 1) =~= views(lines@).take(i as int).push(row@));
        }
        head.push(row);
        i += 1;
    }
    find_last(&head, target)
}

/// Reads a problem in which boxes take one cell.
pub fn get_first_input(content: &str) -> (r: Option<Problem>)
    ensures
        match r {
            Some(p) => well_formed(lines_of(content@), false) && describes(
                &p,
                lines_of(content@),
                false,
            ) && forall|k: int| 0 <= k < p.moves@.len() ==> (#[trigger] p.moves@[k]).unit(),
            None => !well_formed(lines_of(content@), false),
        },
{
    parse_input(content, false)
}

/// Reads a problem in which everything but the robot is twice as wide.
pub fn get_second_input(content: &str) -> (r: Option<Problem>)
    ensures
        match r {
            Some(p) => well_formed(lines_of(content@), true) && describes(
                &p,
                lines_of(content@),
                true,
            ) && forall|k: int| 0 <= k < p.moves@.len() ==> (#[trigger] p.moves@[k]).unit(),
            None => !well_formed(lines_of(content@), true),
        },
{
    parse_input(content, true)
}

/// The map and the place of the robot after the first `k` moves.
pub open spec fn after_moves(map: Seq<Seq<Cell>>, pos: Vector, moves: Seq<Direction>, k: int, wide: bool) -> (
    Seq<Seq<Cell>>,
    Vector,
)
    decreases k,
{
    if k <= 0 {
        (map, pos)
    } else {
        let before = after_moves(map, pos, moves, k - 1, wide);
        let next = if wide {
            forwarded2(before.0, before.1, moves[k - 1])
        } else {
            forwarded(before.0, before.1, moves[k - 1])
        };
        (next.0, Vector { x: next.1.0 as usize, y: next.1.1 as usize })
    }
}

/// What a cell adds to the sum: 100 times its row plus its column, if it
/// holds `kind`.
pub open spec fn gps(map: Seq<Seq<Cell>>, kind: Cell, x: int, y: int) -> nat {
    if cell_at(map, x, y) == kind {
        (100 * y + x) as nat
    } else {
        0
    }
}

/// The sum over the cells of row `y` before column `bound`.
pub open spec fn gps_row(map: Seq<Seq<Cell>>, kind: Cell, y: int, bound: int) -> nat
    decreases bound,
{
    if bound <= 0 {
        0
    } else {
        gps_row(map, kind, y, bound - 1) + gps(map, kind, bound - 1, y)
    }
}

/// The sum over the rows before `bound`.
pub open spec fn gps_sum(map: Seq<Seq<Cell>>, kind: Cell, bound: int) -> nat
    decreases bound,
{
    if bound <= 0 {
        0
    } else {
        gps_sum(map, kind, bound - 1) + gps_row(map, kind, bound - 1, map[bound - 1].len() as int)
    }
}

pub proof fn lemma_gps_row_grows(map: Seq<Seq<Cell>>, kind: Cell, y: int, a: int, b: int)
    requires
        a <= b,
    ensures
        gps_row(map, kind, y, a) <= gps_row(map, kind, y, b),
    decreases b - a,
{
    if a < b {
        lemma_gps_row_grows(map, kind, y, a, b - 1);
    }
}

pub proof fn lemma_gps_sum_grows(map: Seq<Seq<Cell>>, kind: Cell, a: int, b: int)
    requires
        a <= b,
    ensures
        gps_sum(map, kind, a) <= gps_sum(map, kind, b),
    decreases b - a,
{
    if a < b {
        lemma_gps_sum_grows(map, kind, a, b - 1);
    }
}

/// Adds up, over the cells that hold `kind`, 100 times the row plus the
/// column. There is no sum where it exceeds 128 bits.
pub fn sum_coordinates(map: &Vec<Vec<Cell>>, kind: Cell) -> (r: Option<u128>)
    ensures
        match r {
            Some(s) => s == gps_sum(views(map@), kind, map.len() as int),
            None => gps_sum(views(map@), kind, map.len() as int) > u128::MAX,
        },
{
    let ghost m = views(map@);
    let mut sum: u128 = 0;
    let mut i: usize = 0;
    while i < map.len()
        invariant
            i <= map.len(),
            m == views(map@),
            sum == gps_sum(m, kind, i as int),
        decreases map.len() - i,
    {
        let line = &map[i];
        assert(m[i as int] == line@);
        let mut in_row: u128 = 0;
        let mut j: usize = 0;
        while j < line.len()
            invariant
                j <= line.len(),
                i < map.len(),
                m == views(map@),
                m[i as int] == line@,
                in_row == gps_row(m, kind, i as int, j as int),
            decreases line.len() - j,
        {
            if line[j] == kind {
                let v: u128 = 100 * (i as u128) + (j as u128);
                match in_row.checked_add(v) {
                    Some(t) => {
                        in_row = t;
                    },
                    None => {
                        proof {
                            lemma_gps_row_grows(m, kind, i as int, j + 1, line.len() as int);
                            lemma_gps_sum_grows(m, kind, i + 1, map.len() as int);
                        }
                        return None;
                    },
                }
            }
            j += 1;
        }
        match sum.checked_add(in_row) {
            Some(t) => {
                sum = t;
            },
            None => {
                proof {
                    lemma_gps_sum_grows(m, kind, i + 1, map.len() as int);
                }
                return None;
            },
        }
        i += 1;
    }
    Some(sum)
}

/// Makes all moves of a problem.
fn run_moves(problem: &mut Problem, wide: bool)
    requires
        forall|k: int| 0 <= k < old(problem).moves@.len() ==> (#[trigger] old(problem).moves@[k]).unit(),
    ensures
        final(problem).moves == old(problem).moves,
        views(final(problem).map@) == after_moves(
            views(old(problem).map@),
            old(problem).robot,
            old(problem).moves@,
            old(problem).moves@.len() as int,
            wide,
        ).0,
        final(problem).robot == after_moves(
            views(old(problem).map@),
            old(problem).robot,
            old(problem).moves@,
            old(problem).moves@.len() as int,
            wide,
        ).1,
{
    let ghost start = views(problem.map@);
    let ghost robot = problem.robot;
    let mut pos = problem.robot;
    let mut i: usize = 0;
    while i < problem.moves.len()
        invariant
            i <= problem.moves.len(),
            problem.moves == old(problem).moves,
            problem.robot == old(problem).robot,
            start == views(old(problem).map@),
            robot == old(problem).robot,
            forall|k: int| 0 <= k < problem.moves@.len() ==> (#[trigger] problem.moves@[k]).unit(),
            (views(problem.map@), pos) == after_moves(start, robot, problem.moves@, i as int, wide),
        decreases problem.moves.len() - i,
    {
        let dir = problem.moves[i];
        assert(problem.moves@[i as int].unit());
        let ghost before = views(problem.map@);
        let mut map: Vec<Vec<Cell>> = Vec::new();
        core::mem::swap(&mut map, &mut problem.map);
        pos = if wide {
            forward2(&mut map, &pos, &dir)
        } else {
            forward(&mut map, &pos, &dir)
        };
        core::mem::swap(&mut map, &mut problem.map);
        i += 1;
    }
    problem.robot = pos;
}

/// Makes all moves where boxes take one cell, and adds up the coordinates
/// of the boxes.
pub fn first_part(problem: Problem) -> (r: Option<u128>)
    requires
        forall|k: int| 0 <= k < problem.moves@.len() ==> (#[trigger] problem.moves@[k]).unit(),
    ensures
        ({
            let end = after_moves(
                views(problem.map@),
                problem.robot,
                problem.moves@,
                problem.moves@.len() as int,
                false,
            ).0;
            match r {
                Some(s) => s == gps_sum(end, Cell::Box, end.len() as int),
                None => gps_sum(end, Cell::Box, end.len() as int) > u128::MAX,
            }
        }),
{
    let mut problem = problem;
    run_moves(&mut problem, false);
    sum_coordinates(&problem.map, Cell::Box)
}

/// Makes all moves where boxes are wide, and adds up the coordinates of
/// the left halves of the boxes.
pub fn second_part(problem: Problem) -> (r: Option<u128>)
    requires
        forall|k: int| 0 <= k < problem.moves@.len() ==> (#[trigger] problem.moves@[k]).unit(),
    ensures
        ({
            let end = after_moves(
                views(problem.map@),
                problem.robot,
                problem.moves@,
                problem.moves@.len() as int,
                true,
            ).0;
            match r {
                Some(s) => s == gps_sum(end, Cell::BoxLeft, end.len() as int),
                None => gps_sum(end, Cell::BoxLeft, end.len() as int) > u128::MAX,
            }
        }),
{
    let mut problem = problem;
    run_moves(&mut problem, true);
    sum_coordinates(&problem.map, Cell::BoxLeft)
}

} // verus!
