//! Robots that move in straight lines through a space that wraps around.

use vstd::prelude::*;
use crate::text::{chars_of, first_index, lemma_first_index, lines_of, parse_signed, signed_of,
    split_lines, tail, views};

verus! {

/// Width of the space.
pub const WIDTH: i16 = 101;

/// Height of the space.
pub const HEIGHT: i16 = 103;

/// A robot: where it is and how far it moves in a second.
#[derive(Debug, Copy, Clone, PartialEq, Eq, Structural)]
pub struct Robot {
    pub x: i16,
    pub y: i16,
    pub vx: i16,
    pub vy: i16,
}

/// A coordinate brought back into a side of length `side`, if it left it
/// by less than the side.
pub open spec fn wrapped(v: int, side: int) -> int {
    if v < 0 {
        v + side
    } else if v >= side {
        v - side
    } else {
        v
    }
}

impl Robot {
    /// The robot a second later.
    pub open spec fn moved(self) -> Robot {
        Robot {
            x: wrapped(self.x + self.vx, WIDTH as int) as i16,
            y: wrapped(self.y + self.vy, HEIGHT as int) as i16,
            vx: self.vx,
            vy: self.vy,
        }
    }

    /// The robot can move without leaving the numbers that hold it.
    pub open spec fn can_move(self) -> bool {
        &&& i16::MIN <= wrapped(self.x + self.vx, WIDTH as int) <= i16::MAX
        &&& i16::MIN <= wrapped(self.y + self.vy, HEIGHT as int) <= i16::MAX
    }

    /// The robot after `n` seconds; nothing if it cannot move that long.
    pub open spec fn after(self, n: nat) -> Option<Robot>
        decreases n,
    {
        if n == 0 {
            Some(self)
        } else {
            match self.after((n - 1) as nat) {
                Some(r) => if r.can_move() {
                    Some(r.moved())
                } else {
                    None
                },
                None => None,
            }
        }
    }

    /// Moves the robot by one second.
    pub fn move_once(&mut self)
        requires
            old(self).can_move(),
        ensures
            *final(self) == old(self).moved(),
    {
        let mut x: i32 = self.x as i32 + self.vx as i32;
        let mut y: i32 = self.y as i32 + self.vy as i32;
        if x < 0 {
            x += WIDTH as i32;
        } else if x >= WIDTH as i32 {
            x -= WIDTH as i32;
        }
        if y < 0 {
            y += HEIGHT as i32;
        } else if y >= HEIGHT as i32 {
            y -= HEIGHT as i32;
        }
        self.x = x as i16;
        self.y = y as i16;
    }

    /// Moves the robot by one second, if it can move.
    pub fn try_move(&mut self) -> (ok: bool)
        ensures
            ok == old(self).can_move(),
            ok ==> *final(self) == old(self).moved(),
            !ok ==> *final(self) == *old(self),
    {
        let x: i32 = self.x as i32 + self.vx as i32;
        let y: i32 = self.y as i32 + self.vy as i32;
        let wx = if x < 0 {
            x + WIDTH as i32
        } else if x >= WIDTH as i32 {
            x - WIDTH as i32
        } else {
            x
        };
        let wy = if y < 0 {
            y + HEIGHT as i32
        } else if y >= HEIGHT as i32 {
            y - HEIGHT as i32
        } else {
            y
        };
        if wx < i16::MIN as i32 || wx > i16::MAX as i32 || wy < i16::MIN as i32 || wy > i16::MAX as i32 {
            return false;
        }
        self.move_once();
        true
    }
}

/// The quadrant of a robot, from 0 to 3: 0 and 1 are the left half, above
/// the middle and below it. A robot on a middle line or outside the space
/// is in no quadrant.
pub open spec fn quadrant(r: Robot) -> Option<int> {
    if r.x < 0 || r.x >= WIDTH || r.y < 0 || r.y >= HEIGHT || r.x == WIDTH / 2 || r.y == HEIGHT / 2 {
        None
    } else {
        Some(2 * (r.x as int / (WIDTH / 2 + 1)) + r.y as int / (HEIGHT / 2 + 1))
    }
}

/// How many of the robots are in the quadrant `q`.
pub open spec fn in_quadrant(robots: Seq<Robot>, q: int) -> nat
    decreases robots.len(),
{
    if robots.len() == 0 {
        0
    } else {
        in_quadrant(robots.drop_last(), q) + if quadrant(robots.last()) == Some(q) {
            1nat
        } else {
            0nat
        }
    }
}

pub proof fn lemma_in_quadrant_bound(robots: Seq<Robot>, q: int)
    ensures
        in_quadrant(robots, q) <= robots.len(),
    decreases robots.len(),
{
    if robots.len() > 0 {
        lemma_in_quadrant_bound(robots.drop_last(), q);
    }
}

/// The product of the numbers of robots in the four quadrants.
pub open spec fn safety_factor(robots: Seq<Robot>) -> nat {
    in_quadrant(robots, 0) * in_quadrant(robots, 1) * in_quadrant(robots, 2) * in_quadrant(robots, 3)
}

/// The robots after `n` seconds; nothing if one of them cannot move that
/// long.
pub open spec fn all_after(robots: Seq<Robot>, n: nat) -> Option<Seq<Robot>>
    decreases robots.len(),
{
    if robots.len() == 0 {
        Some(Seq::empty())
    } else {
        match (all_after(robots.drop_last(), n), robots.last().after(n)) {
            (Some(front), Some(r)) => Some(front.push(r)),
            _ => None,
        }
    }
}

pub proof fn lemma_after_stuck(r: Robot, a: nat, b: nat)
    requires
        a <= b,
        r.after(a) is None,
    ensures
        r.after(b) is None,
    decreases b - a,
{
    if a < b {
        lemma_after_stuck(r, a, (b - 1) as nat);
    }
}

pub proof fn lemma_all_after_grows(robots: Seq<Robot>, n: nat, k: int)
    requires
        0 <= k <= robots.len(),
    ensures
        all_after(robots.take(k), n) is None ==> all_after(robots, n) is None,
    decreases robots.len() - k,
{
    if k < robots.len() {
        lemma_all_after_grows(robots, n, k + 1);
        assert(robots.take(k + 1).drop_last() =~= robots.take(k));
    } else {
        assert(robots.take(k) =~= robots);
    }
}

/// Moves every robot by `seconds` seconds; nothing if one cannot move
/// that long.
pub fn move_all(robots: &Vec<Robot>, seconds: u32) -> (r: Option<Vec<Robot>>)
    ensures
        match r {
            Some(moved) => all_after(robots@, seconds as nat) == Some(moved@),
            None => all_after(robots@, seconds as nat) is None,
        },
{
    let mut moved: Vec<Robot> = Vec::new();
    let mut i: usize = 0;
    while i < robots.len()
        invariant
            i <= robots.len(),
            all_after(robots@.take(i as int), seconds as nat) == Some(moved@),
        decreases robots.len() - i,
    {
        let mut robot = robots[i];
        let mut s: u32 = 0;
        proof {
            assert(robots@.take(i + 1).drop_last() =~= robots@.take(i as int));
            lemma_all_after_grows(robots@, seconds as nat, i + 1);
        }
        while s < seconds
            invariant
                s <= seconds,
                i < robots.len(),
                robots@[i as int].after(s as nat) == Some(robot),
                all_after(robots@.take(i as int), seconds as nat) is Some,
                robots@.take(i + 1).drop_last() == robots@.take(i as int),
                robots@.take(i + 1).last() == robots@[i as int],
                all_after(robots@.take(i + 1), seconds as nat) is None ==> all_after(
                    robots@,
                    seconds as nat,
                ) is None,
            decreases seconds - s,
        {
            if !robot.try_move() {
                proof {
                    assert(robots@[i as int].after((s + 1) as nat) is None);
                    lemma_after_stuck(robots@[i as int], (s + 1) as nat, seconds as nat);
                    assert(all_after(robots@.take(i + 1), seconds as nat) is None);
                }
                return None;
            }
            s += 1;
        }
        moved.push(robot);
        i += 1;
    }
    assert(robots@.take(robots.len() as int) =~= robots@);
    Some(moved)
}

/// The product of the numbers of robots in the four quadrants.
pub fn count_quadrants(robots: &Vec<Robot>) -> (f: u128)
    requires
        robots.len() <= 0xffff_ffff,
    ensures
        f == safety_factor(robots@),
{
    let mut quads: [u64; 4] = [0, 0, 0, 0];
    let mut i: usize = 0;
    while i < robots.len()
        invariant
            i <= robots.len() <= 0xffff_ffff,
            forall|q: int| 0 <= q < 4 ==> #[trigger] quads@[q] == in_quadrant(robots@.take(i as int), q),
            forall|q: int| 0 <= q < 4 ==> #[trigger] quads@[q] <= i,
        decreases robots.len() - i,
    {
        let robot = robots[i];
        proof {
            assert(robots@.take(i + 1).drop_last() =~= robots@.take(i as int));
        }
        if !(robot.x < 0 || robot.x >= WIDTH || robot.y < 0 || robot.y >= HEIGHT || robot.x == WIDTH
            / 2 || robot.y == HEIGHT / 2) {
            let x = robot.x / (WIDTH / 2 + 1);
            let y = robot.y / (HEIGHT / 2 + 1);
            let q = (2 * x + y) as usize;
            let old = quads[q];
            quads[q] = old + 1;
        }
        i += 1;
    }
    proof {
        assert(robots@.take(robots.len() as int) =~= robots@);
        let n: int = 0xffff_ffff;
        let a = quads@[0] as int;
        let b = quads@[1] as int;
        let c = quads@[2] as int;
        let d = quads@[3] as int;
        assert(a * b <= n * n && a * b * c <= n * n * n && a * b * c * d <= n * n * n * n
            && 0 <= a * b && 0 <= a * b * c) by (nonlinear_arith)
            requires
                0 <= a <= n,
                0 <= b <= n,
                0 <= c <= n,
                0 <= d <= n,
        ;
    }
    quads[0] as u128 * quads[1] as u128 * quads[2] as u128 * quads[3] as u128
}

/// The robot that a line describes: `p=x,y v=vx,vy`. The two letters and
/// signs before the numbers are passed over, whatever they are.
pub open spec fn robot_of(line: Seq<char>) -> Option<Robot> {
    let space = first_index(line, ' ');
    if space < 0 || space >= line.len() {
        None
    } else {
        let left = line.take(space);
        let right = line.skip(space + 1);
        if left.len() < 2 || right.len() < 2 {
            None
        } else {
            match (pair_of(left.skip(2)), pair_of(right.skip(2))) {
                (Some(p), Some(v)) => Some(Robot { x: p.0, y: p.1, vx: v.0, vy: v.1 }),
                _ => None,
            }
        }
    }
}

/// The two numbers before and after the first comma.
pub open spec fn pair_of(s: Seq<char>) -> Option<(i16, i16)> {
    let comma = first_index(s, ',');
    if comma < 0 || comma >= s.len() {
        None
    } else {
        match (
            signed_of(s.take(comma), i16::MIN as int, i16::MAX as int),
            signed_of(s.skip(comma + 1), i16::MIN as int, i16::MAX as int),
        ) {
            (Some(a), Some(b)) => Some((a as i16, b as i16)),
            _ => None,
        }
    }
}

/// The robots that the lines describe; nothing if a line describes none.
pub open spec fn robots_of(lines: Seq<Seq<char>>) -> Option<Seq<Robot>>
    decreases lines.len(),
{
    if lines.len() == 0 {
        Some(Seq::empty())
    } else {
        match (robots_of(lines.drop_last()), robot_of(lines.last())) {
            (Some(front), Some(r)) => Some(front.push(r)),
            _ => None,
        }
    }
}

pub proof fn lemma_robots_grow(lines: Seq<Seq<char>>, n: int)
    requires
        0 <= n <= lines.len(),
    ensures
        robots_of(lines.take(n)) is None ==> robots_of(lines) is None,
    decreases lines.len() - n,
{
    if n < lines.len() {
        lemma_robots_grow(lines, n + 1);
        assert(lines.take(n + 1).drop_last() =~= lines.take(n));
    } else {
        assert(lines.take(n) =~= lines);
    }
}

/// Splits a text at the first `sep`.
pub fn split_once(s: &Vec<char>, sep: char) -> (r: Option<(Vec<char>, Vec<char>)>)
    ensures
        match r {
            Some((a, b)) => {
                let at = first_index(s@, sep);
                0 <= at < s.len() && a@ == s@.take(at) && b@ == s@.skip(at + 1)
            },
            None => first_index(s@, sep) >= s.len(),
        },
{
    let mut at: usize = 0;
    while at < s.len() && s[at] != sep
        invariant
            at <= s.len(),
            forall|k: int| 0 <= k < at ==> s@[k] != sep,
        decreases s.len() - at,
    {
        at += 1;
    }
    proof {
        lemma_first_index(s@, sep, at as int);
    }
    if at >= s.len() {
        return None;
    }
    let mut head: Vec<char> = Vec::new();
    let mut i: usize = 0;
    while i < at
        invariant
            i <= at < s.len(),
            head@ == s@.take(i as int),
        decreases at - i,
    {
        head.push(s[i]);
        assert(head@ =~= s@.take(i + 1));
        i += 1;
    }
    let rest = tail(s, at + 1);
    Some((head, rest))
}

fn parse_pair(s: &Vec<char>) -> (r: Option<(i16, i16)>)
    ensures
        r == pair_of(s@),
{
    match split_once(s, ',') {
        None => None,
        Some((a, b)) => {
            match (
                parse_signed(&a, i16::MIN as i128, i16::MAX as i128),
                parse_signed(&b, i16::MIN as i128, i16::MAX as i128),
            ) {
                (Some(x), Some(y)) => Some((x as i16, y as i16)),
                _ => None,
            }
        },
    }
}

fn parse_robot(line: &Vec<char>) -> (r: Option<Robot>)
    ensures
        r == robot_of(line@),
{
    match split_once(line, ' ') {
        None => None,
        Some((left, right)) => {
            if left.len() < 2 || right.len() < 2 {
                return None;
            }
            let p = tail(&left, 2);
            let v = tail(&right, 2);
            match (parse_pair(&p), parse_pair(&v)) {
                (Some(p), Some(v)) => Some(Robot { x: p.0, y: p.1, vx: v.0, vy: v.1 }),
                _ => None,
            }
        },
    }
}

/// Reads the robots from text, one per line.
pub fn parse_input(input: &str) -> (r: Option<Vec<Robot>>)
    ensures
        match r {
            Some(robots) => robots_of(lines_of(input@)) == Some(robots@),
            None => robots_of(lines_of(input@)) is None,
        },
{
    let text = chars_of(input);
    let lines = split_lines(&text);
    let ghost all = views(lines@);
    let mut robots: Vec<Robot> = Vec::new();
    let mut i: usize = 0;
    while i < lines.len()
        invariant
            i <= lines.len(),
            all == views(lines@),
            all == lines_of(input@),
            robots_of(all.take(i as int)) == Some(robots@),
        decreases lines.len() - i,
    {
        proof {
            assert(all.take(i + 1).drop_last() =~= all.take(i as int));
            assert(all.take(i + 1).last() == lines@[i as int]@);
            lemma_robots_grow(all, i + 1);
        }
        match parse_robot(&lines[i]) {
            Some(r) => {
                robots.push(r);
            },
            None => {
                assert(robots_of(all.take(i + 1)) is None);
                return None;
            },
        }
        i += 1;
    }
    assert(all.take(lines.len() as int) =~= all);
    Some(robots)
}

/// Why the robots gave no safety factor.
#[derive(Debug, Copy, Clone, PartialEq, Eq, Structural)]
pub enum RobotError {
    /// A line describes no robot.
    BadInput,
    /// A robot moves farther than the numbers that hold it reach.
    OutOfRange,
    /// More than 4294967295 robots.
    TooMany,
}

/// What `solve` makes of a text.
pub open spec fn solution_of(text: Seq<char>) -> Result<nat, RobotError> {
    match robots_of(lines_of(text)) {
        None => Err(RobotError::BadInput),
        Some(robots) => if robots.len() > 0xffff_ffff {
            Err(RobotError::TooMany)
        } else {
            match all_after(robots, 100) {
                None => Err(RobotError::OutOfRange),
                Some(moved) => Ok(safety_factor(moved)),
            }
        },
    }
}

/// The safety factor of the robots of a text after 100 seconds.
pub fn solve(input: &str) -> (r: Result<u128, RobotError>)
    ensures
        match r {
            Ok(f) => solution_of(input@) == Ok::<nat, RobotError>(f as nat),
            Err(e) => solution_of(input@) == Err::<nat, RobotError>(e),
        },
{
    let robots = match parse_input(input) {
        Some(r) => r,
        None => {
            return Err(RobotError::BadInput);
        },
    };
    if robots.len() > 0xffff_ffff {
        return Err(RobotError::TooMany);
    }
    let moved = match move_all(&robots, 100) {
        Some(m) => m,
        None => {
            return Err(RobotError::OutOfRange);
        },
    };
    proof {
        lemma_all_after_len(robots@, 100);
    }
    Ok(count_quadrants(&moved))
}

pub proof fn lemma_all_after_len(robots: Seq<Robot>, n: nat)
    ensures
        all_after(robots, n) is Some ==> all_after(robots, n).unwrap().len() == robots.len(),
    decreases robots.len(),
{
    if robots.len() > 0 {
        lemma_all_after_len(robots.drop_last(), n);
    }
}

/// After `t` seconds, two of the robots stand on the same place.
pub open spec fn crowded_at(robots: Seq<Robot>, t: nat) -> bool {
    all_after(robots, t) is Some && !spread_out(all_after(robots, t).unwrap())
}

/// No two of the robots stand on the same place.
pub open spec fn spread_out(robots: Seq<Robot>) -> bool {
    forall|i: int, j: int|
        0 <= i < j < robots.len() ==> !(#[trigger] robots[i].x == #[trigger] robots[j].x && robots[i].y
            == robots[j].y)
}

/// Whether no two of the robots stand on the same place.
pub fn is_spread_out(robots: &Vec<Robot>) -> (b: bool)
    ensures
        b == spread_out(robots@),
{
    let mut i: usize = 0;
    while i < robots.len()
        invariant
            i <= robots.len(),
            forall|a: int, b: int|
                0 <= a < i && a < b < robots.len() ==> !(#[trigger] robots@[a].x == #[trigger] robots@[b].x
                    && robots@[a].y == robots@[b].y),
        decreases robots.len() - i,
    {
        let mut j: usize = i + 1;
        while j < robots.len()
            invariant
                i < j <= robots.len(),
                forall|b: int|
                    i < b < j ==> !(robots@[i as int].x == (#[trigger] robots@[b]).x && robots@[i as int].y
                        == robots@[b].y),
            decreases robots.len() - j,
        {
            if robots[i].x == robots[j].x && robots[i].y == robots[j].y {
                return false;
            }
            j += 1;
        }
        i += 1;
    }
    true
}

/// The first second, from 1 up to `limit`, after which no two robots stand
/// on the same place; nothing if there is none, or if a robot cannot move
/// that long.
pub fn part2(robots: &Vec<Robot>, limit: u32) -> (r: Option<u32>)
    ensures
        match r {
            Some(s) => 1 <= s <= limit && all_after(robots@, s as nat) is Some && spread_out(
                all_after(robots@, s as nat).unwrap(),
            ) && forall|t: nat| 1 <= t < s ==> #[trigger] crowded_at(robots@, t),
            None => forall|t: nat|
                1 <= t <= limit ==> all_after(robots@, t) is None || #[trigger] crowded_at(robots@, t),
        },
{
    let mut s: u32 = 1;
    while s <= limit
        invariant
            1 <= s <= limit + 1,
            forall|t: nat| 1 <= t < s ==> #[trigger] crowded_at(robots@, t),
        decreases limit + 1 - s,
    {
        match move_all(robots, s) {
            Some(moved) => {
                if is_spread_out(&moved) {
                    return Some(s);
                }
                assert(crowded_at(robots@, s as nat));
            },
            None => {
                proof {
                    assert forall|t: nat| 1 <= t <= limit implies all_after(robots@, t) is None
                        || #[trigger] crowded_at(robots@, t) by {
                        if t >= s {
                            lemma_all_after_stuck(robots@, s as nat, t);
                        }
                    }
                }
                return None;
            },
        }
        if s == limit {
            return None;
        }
        s += 1;
    }
    None
}

/// Robots that cannot move for some seconds cannot move for longer.
pub proof fn lemma_all_after_stuck(robots: Seq<Robot>, a: nat, b: nat)
    requires
        a <= b,
        all_after(robots, a) is None,
    ensures
        all_after(robots, b) is None,
    decreases robots.len(),
{
    if robots.len() > 0 {
        if all_after(robots.drop_last(), a) is None {
            lemma_all_after_stuck(robots.drop_last(), a, b);
        } else {
            lemma_after_stuck(robots.last(), a, b);
        }
    }
}

} // verus!
