//! A square memory space into which bytes fall and block cells: the
//! shortest way from one corner to the other, and the byte that first
//! closes every way.

use vstd::prelude::*;
use crate::lattice::{is_path, no_path, open_set, shortest_open_path, shortest_path};
use crate::maze::table::{lemma_slot_in_range, slot};
use crate::text::{
    chars_of, lines_of, parse_unsigned, split_by, split_lines, split_on, unsigned_of, views,
};

verus! {

/// The side of the memory space of the puzzle.
pub const GRID_SIZE: usize = 71;

/// How many bytes of the puzzle fall before the way is sought.
pub const BYTES_TO_SIMULATE: usize = 1024;

/// How far two points are apart when nothing blocks the way.
pub open spec fn manhattan(a: (usize, usize), b: (usize, usize)) -> nat {
    let dx = if a.0 >= b.0 {
        a.0 - b.0
    } else {
        b.0 - a.0
    };
    let dy = if a.1 >= b.1 {
        a.1 - b.1
    } else {
        b.1 - a.1
    };
    (dx + dy) as nat
}

/// The Manhattan distance of two points.
pub fn heuristic(a: (usize, usize), b: (usize, usize)) -> (d: usize)
    requires
        manhattan(a, b) <= usize::MAX,
    ensures
        d == manhattan(a, b),
{
    let dx = if a.0 >= b.0 {
        a.0 - b.0
    } else {
        b.0 - a.0
    };
    let dy = if a.1 >= b.1 {
        a.1 - b.1
    } else {
        b.1 - a.1
    };
    dx + dy
}

/// The point that a line holds: its first two numbers, separated by
/// commas.
pub open spec fn point_of(line: Seq<char>) -> Option<(usize, usize)> {
    let parts = split_by(line, ',');
    if parts.len() < 2 {
        None
    } else {
        match (
            unsigned_of(parts[0], usize::MAX as nat),
            unsigned_of(parts[1], usize::MAX as nat),
        ) {
            (Some(x), Some(y)) => if all_numbers(parts) {
                Some((x as usize, y as usize))
            } else {
                None
            },
            _ => None,
        }
    }
}

/// Every part is a number.
pub open spec fn all_numbers(parts: Seq<Seq<char>>) -> bool {
    forall|i: int| 0 <= i < parts.len() ==> unsigned_of(#[trigger] parts[i], usize::MAX as nat) is Some
}

/// The points that the lines hold; nothing if a line holds none.
pub open spec fn points_of(lines: Seq<Seq<char>>) -> Option<Seq<(usize, usize)>>
    decreases lines.len(),
{
    if lines.len() == 0 {
        Some(Seq::empty())
    } else {
        match (points_of(lines.drop_last()), point_of(lines.last())) {
            (Some(front), Some(p)) => Some(front.push(p)),
            _ => None,
        }
    }
}

/// Reads one point from a line.
fn parse_point(line: &Vec<char>) -> (r: Option<(usize, usize)>)
    ensures
        r == point_of(line@),
{
    let parts = split_on(line, ',');
    let ghost all = views(parts@);
    let mut numbers: Vec<usize> = Vec::new();
    let mut i: usize = 0;
    while i < parts.len()
        invariant
            i <= parts.len(),
            all == views(parts@),
            all == split_by(line@, ','),
            numbers.len() == i,
            forall|k: int|
                0 <= k < i ==> unsigned_of(#[trigger] all[k], usize::MAX as nat) == Some(
                    numbers@[k] as nat,
                ),
        decreases parts.len() - i,
    {
        assert(all[i as int] == parts@[i as int]@);
        match parse_unsigned(&parts[i], usize::MAX as u128) {
            Some(v) => {
                numbers.push(v as usize);
            },
            None => {
                assert(unsigned_of(all[i as int], usize::MAX as nat) is None);
                assert(!all_numbers(all));
                return None;
            },
        }
        i += 1;
    }
    if numbers.len() < 2 {
        return None;
    }
    assert(all_numbers(all));
    Some((numbers[0], numbers[1]))
}

/// Reads the falling bytes from text, one point per line.
pub fn parse_bytes(input: &str) -> (r: Option<Vec<(usize, usize)>>)
    ensures
        match r {
            Some(points) => points_of(lines_of(input@)) == Some(points@),
            None => points_of(lines_of(input@)) is None,
        },
{
    let text = chars_of(input);
    let lines = split_lines(&text);
    let ghost all = views(lines@);
    let mut points: Vec<(usize, usize)> = Vec::new();
    let mut i: usize = 0;
    while i < lines.len()
        invariant
            i <= lines.len(),
            all == views(lines@),
            all == lines_of(input@),
            points_of(all.take(i as int)) == Some(points@),
        decreases lines.len() - i,
    {
        proof {
            assert(all.take(i + 1).drop_last() =~= all.take(i as int));
            assert(all.take(i + 1).last() == lines@[i as int]@);
            lemma_points_grow(all, i + 1);
        }
        match parse_point(&lines[i]) {
            Some(p) => {
                points.push(p);
            },
            None => {
                assert(points_of(all.take(i + 1)) is None);
                return None;
            },
        }
        i += 1;
    }
    assert(all.take(lines.len() as int) =~= all);
    Some(points)
}

/// Lines hold no points if a front part of them holds none.
pub proof fn lemma_points_grow(lines: Seq<Seq<char>>, n: int)
    requires
        0 <= n <= lines.len(),
    ensures
        points_of(lines.take(n)) is None ==> points_of(lines) is None,
    decreases lines.len() - n,
{
    if n < lines.len() {
        lemma_points_grow(lines, n + 1);
        assert(lines.take(n + 1).drop_last() =~= lines.take(n));
    } else {
        assert(lines.take(n) =~= lines);
    }
}

/// The first `count` bytes, or all if there are fewer: the cells that are
/// corrupted once they have fallen.
pub fn simulate_corruption(bytes: &Vec<(usize, usize)>, count: usize) -> (corrupted: Vec<(usize, usize)>)
    ensures
        corrupted@ == bytes@.take(if count <= bytes.len() {
            count as int
        } else {
            bytes.len() as int
        }),
{
    let n = if count <= bytes.len() {
        count
    } else {
        bytes.len()
    };
    let mut corrupted: Vec<(usize, usize)> = Vec::new();
    let mut i: usize = 0;
    while i < n
        invariant
            i <= n <= bytes.len(),
            corrupted@ == bytes@.take(i as int),
        decreases n - i,
    {
        corrupted.push(bytes[i]);
        assert(corrupted@ =~= bytes@.take(i + 1));
        i += 1;
    }
    corrupted
}

/// The cells of a memory space of side `size` that are not corrupted.
pub open spec fn safe_cells(size: nat, corrupted: Seq<(usize, usize)>) -> Set<(usize, usize)> {
    Set::new(|c: (usize, usize)| c.0 < size && c.1 < size && !corrupted.contains(c))
}

/// Marks which cells of the memory space are not corrupted.
fn safe_table(corrupted: &Vec<(usize, usize)>, size: usize, cells: usize) -> (open: Vec<bool>)
    requires
        cells == size * size,
    ensures
        open.len() == cells,
        open_set(size as nat, size as nat, open@) == safe_cells(size as nat, corrupted@),
{
    let mut open: Vec<bool> = Vec::new();
    let mut i: usize = 0;
    while i < cells
        invariant
            i <= cells,
            open.len() == i,
            forall|k: int| 0 <= k < i ==> open@[k],
        decreases cells - i,
    {
        open.push(true);
        i += 1;
    }
    let mut j: usize = 0;
    proof {
        assert forall|x: int, y: int| 0 <= x < size && 0 <= y < size implies (
        #[trigger] open@[slot(size as int, x, y)] <==> !corrupted@.take(0).contains(
            (x as usize, y as usize),
        )) by {
            lemma_slot_in_range(size as int, size as int, x, y);
        }
    }
    while j < corrupted.len()
        invariant
            j <= corrupted.len(),
            open.len() == cells,
            cells == size * size,
            forall|x: int, y: int|
                0 <= x < size && 0 <= y < size ==> (#[trigger] open@[slot(size as int, x, y)]
                    <==> !corrupted@.take(j as int).contains((x as usize, y as usize))),
        decreases corrupted.len() - j,
    {
        let c = corrupted[j];
        let ghost before = open@;
        if c.0 < size && c.1 < size {
            proof {
                lemma_slot_in_range(size as int, size as int, c.0 as int, c.1 as int);
            }
            open.set(c.1 * size + c.0, false);
        }
        proof {
            let old_list = corrupted@.take(j as int);
            let new_list = corrupted@.take(j + 1);
            assert(new_list =~= old_list.push(c));
            crate::maze::tiles::lemma_push_contains(old_list, c);
            assert forall|x: int, y: int| 0 <= x < size && 0 <= y < size implies (
            #[trigger] open@[slot(size as int, x, y)] <==> !new_list.contains(
                (x as usize, y as usize),
            )) by {
                lemma_slot_in_range(size as int, size as int, x, y);
                assert(before[slot(size as int, x, y)] <==> !old_list.contains(
                    (x as usize, y as usize),
                ));
                if c.0 < size && c.1 < size {
                    if slot(size as int, x, y) == slot(size as int, c.0 as int, c.1 as int) {
                        crate::maze::table::lemma_slot_injective(
                            size as int,
                            x,
                            y,
                            c.0 as int,
                            c.1 as int,
                        );
                    }
                }
            }
        }
        j += 1;
    }
    proof {
        assert(corrupted@.take(corrupted.len() as int) =~= corrupted@);
        let a = open_set(size as nat, size as nat, open@);
        let b = safe_cells(size as nat, corrupted@);
        assert forall|c: (usize, usize)| a.contains(c) <==> b.contains(c) by {
            if c.0 < size && c.1 < size {
                assert(open@[slot(size as int, c.0 as int, c.1 as int)] <==> !corrupted@.contains(
                    (c.0 as int as usize, c.1 as int as usize),
                ));
            }
        }
        assert(a =~= b);
    }
    open
}

/// The least number of steps from the corner `(0, 0)` to the opposite
/// corner of a memory space of side `size`, through cells that are not
/// corrupted. There is none where no way leads there, in a space without
/// cells, or in one with more cells than the machine can count.
pub fn find_shortest_path(corrupted: &Vec<(usize, usize)>, size: usize) -> (r: Option<usize>)
    ensures
        match r {
            Some(d) => size > 0 && size * size <= usize::MAX && exists|p: Seq<(usize, usize)>|
                #![trigger p.len()]
                shortest_path(
                    safe_cells(size as nat, corrupted@),
                    (0, 0),
                    ((size - 1) as usize, (size - 1) as usize),
                    p,
                ) && p.len() == d + 1,
            None => size == 0 || size * size > usize::MAX || no_path(
                safe_cells(size as nat, corrupted@),
                (0, 0),
                ((size - 1) as usize, (size - 1) as usize),
            ),
        },
{
    if size == 0 {
        return None;
    }
    let cells = match size.checked_mul(size) {
        Some(n) => n,
        None => {
            return None;
        },
    };
    let open = safe_table(corrupted, size, cells);
    match shortest_open_path(size, size, &open, (0, 0), (size - 1, size - 1)) {
        Some(p) => Some(p.len() - 1),
        None => None,
    }
}

/// Whether a way leads from the corner `(0, 0)` to the opposite corner of
/// a memory space of side `size`, through cells that are not corrupted.
pub fn path_exists(corrupted: &Vec<(usize, usize)>, size: usize) -> (b: bool)
    ensures
        b ==> size > 0 && size * size <= usize::MAX && !no_path(
            safe_cells(size as nat, corrupted@),
            (0, 0),
            ((size - 1) as usize, (size - 1) as usize),
        ),
        !b ==> size == 0 || size * size > usize::MAX || no_path(
            safe_cells(size as nat, corrupted@),
            (0, 0),
            ((size - 1) as usize, (size - 1) as usize),
        ),
{
    let r = find_shortest_path(corrupted, size);
    proof {
        if r is Some {
            let p = choose|p: Seq<(usize, usize)>|
                #![trigger p.len()]
                shortest_path(
                    safe_cells(size as nat, corrupted@),
                    (0, 0),
                    ((size - 1) as usize, (size - 1) as usize),
                    p,
                ) && p.len() == r.unwrap() + 1;
            assert(is_path(safe_cells(size as nat, corrupted@), p));
        }
    }
    r.is_some()
}

/// The way to the opposite corner is closed once the first `n` bytes have
/// fallen.
pub open spec fn closed_after(bytes: Seq<(usize, usize)>, size: nat, n: int) -> bool {
    size == 0 || size * size > usize::MAX || no_path(
        safe_cells(size, bytes.take(n)),
        (0, 0),
        ((size - 1) as usize, (size - 1) as usize),
    )
}

/// The first byte whose fall closes every way from corner to corner.
pub fn find_first_blocking_byte(bytes: &Vec<(usize, usize)>, size: usize) -> (r: Option<(usize, usize)>)
    ensures
        match r {
            Some(b) => exists|i: int|
                #![trigger bytes@[i]]
                0 <= i < bytes.len() && b == bytes@[i] && closed_after(bytes@, size as nat, i + 1)
                    && forall|j: int| 0 <= j < i ==> !#[trigger] closed_after(
                    bytes@,
                    size as nat,
                    j + 1,
                ),
            None => forall|j: int| 0 <= j < bytes.len() ==> !#[trigger] closed_after(
                bytes@,
                size as nat,
                j + 1,
            ),
        },
{
    let mut corrupted: Vec<(usize, usize)> = Vec::new();
    let mut i: usize = 0;
    while i < bytes.len()
        invariant
            i <= bytes.len(),
            corrupted@ == bytes@.take(i as int),
            forall|j: int| 0 <= j < i ==> !#[trigger] closed_after(bytes@, size as nat, j + 1),
        decreases bytes.len() - i,
    {
        let byte = bytes[i];
        corrupted.push(byte);
        assert(corrupted@ =~= bytes@.take(i + 1));
        if !path_exists(&corrupted, size) {
            assert(closed_after(bytes@, size as nat, i + 1));
            return Some(byte);
        }
        assert(!closed_after(bytes@, size as nat, i + 1));
        i += 1;
    }
    None
}

} // verus!
