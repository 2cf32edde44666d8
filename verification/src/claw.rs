//! Claw machines: two buttons that move a claw, a prize, and the cheapest
//! way to press the buttons so that the claw reaches the prize.

use vstd::prelude::*;
use crate::text::{chars_of, decimal, digit_of, digit_value, lemma_decimal_grows, string_of, to_decimal,
    decimal_digits};

verus! {

/// What each button adds to the place of the claw, and where the prize is.
#[derive(Debug, Clone, Copy, PartialEq, Eq, Structural)]
pub struct ClawMachine {
    pub ax: i128,
    pub ay: i128,
    pub bx: i128,
    pub by: i128,
    pub px: i128,
    pub py: i128,
}

/// A whole number as a sign and a size.
#[derive(Debug, Clone, Copy, PartialEq, Eq, Structural)]
pub struct Signed {
    pub negative: bool,
    pub size: u128,
}

impl Signed {
    pub open spec fn value(self) -> int {
        if self.negative {
            -(self.size as int)
        } else {
            self.size as int
        }
    }
}

impl ClawMachine {
    /// The determinant of the two buttons.
    pub open spec fn determinant(self) -> int {
        self.ay * self.bx - self.ax * self.by
    }

    /// The presses of button A, times the determinant.
    pub open spec fn a_part(self) -> int {
        -(self.by * self.px - self.bx * self.py)
    }

    /// The presses of button B, times the determinant.
    pub open spec fn b_part(self) -> int {
        self.ay * self.px - self.ax * self.py
    }

    /// The products from which the parts are made can be held.
    pub open spec fn in_range(self) -> bool {
        &&& -(u128::MAX as int) <= self.ay * self.bx <= u128::MAX
        &&& -(u128::MAX as int) <= self.ax * self.by <= u128::MAX
        &&& -(u128::MAX as int) <= self.by * self.px <= u128::MAX
        &&& -(u128::MAX as int) <= self.bx * self.py <= u128::MAX
        &&& -(u128::MAX as int) <= self.ay * self.px <= u128::MAX
        &&& -(u128::MAX as int) <= self.ax * self.py <= u128::MAX
        &&& -(u128::MAX as int) <= self.determinant() <= u128::MAX
        &&& -(u128::MAX as int) <= self.a_part() <= u128::MAX
        &&& -(u128::MAX as int) <= self.b_part() <= u128::MAX
    }

    /// What it costs to reach the prize, a press of A costing 3 and a press
    /// of B costing 1: the buttons must not be parallel, the presses must
    /// be whole numbers from 0 to `press_limit`.
    pub open spec fn price(self, press_limit: nat) -> Option<nat> {
        let d = self.determinant();
        if d == 0 {
            None
        } else if self.a_part() % d != 0 || self.b_part() % d != 0 {
            None
        } else {
            let a = self.a_part() / d;
            let b = self.b_part() / d;
            if 0 <= a <= press_limit && 0 <= b <= press_limit {
                Some((3 * a + b) as nat)
            } else {
                None
            }
        }
    }
}

impl ClawMachine {
    /// `a` presses of button A and `b` presses of button B bring the claw
    /// to the prize.
    pub open spec fn reaches(self, a: int, b: int) -> bool {
        a * self.ax + b * self.bx == self.px && a * self.ay + b * self.by == self.py
    }

    /// Presses that bring the claw to the prize are the two parts divided
    /// by the determinant.
    pub proof fn lemma_presses(self, a: int, b: int)
        requires
            self.reaches(a, b),
        ensures
            self.a_part() == a * self.determinant(),
            self.b_part() == b * self.determinant(),
    {
        let (ax, ay, bx, by, px, py) = (
            self.ax as int,
            self.ay as int,
            self.bx as int,
            self.by as int,
            self.px as int,
            self.py as int,
        );
        assert(-(by * px - bx * py) == a * (ay * bx - ax * by)) by (nonlinear_arith)
            requires
                a * ax + b * bx == px,
                a * ay + b * by == py,
        ;
        assert(ay * px - ax * py == b * (ay * bx - ax * by)) by (nonlinear_arith)
            requires
                a * ax + b * bx == px,
                a * ay + b * by == py,
        ;
    }

    /// Where the buttons are not parallel, the two parts divided by the
    /// determinant bring the claw to the prize, if they are whole numbers.
    pub proof fn lemma_parts_reach(self, a: int, b: int)
        requires
            self.determinant() != 0,
            self.a_part() == a * self.determinant(),
            self.b_part() == b * self.determinant(),
        ensures
            self.reaches(a, b),
    {
        let (ax, ay, bx, by, px, py) = (
            self.ax as int,
            self.ay as int,
            self.bx as int,
            self.by as int,
            self.px as int,
            self.py as int,
        );
        let d = ay * bx - ax * by;
        let ad = a * d;
        let bd = b * d;
        assert((a * ax + b * bx) * d == ax * ad + bx * bd) by (nonlinear_arith)
            requires
                ad == a * d,
                bd == b * d,
        ;
        assert(ax * (bx * py - by * px) + bx * (ay * px - ax * py) == px * (ay * bx - ax * by))
            by (nonlinear_arith);
        assert(ax * ad == ax * (bx * py - by * px));
        assert(bx * bd == bx * (ay * px - ax * py));
        assert((a * ax + b * bx) * d == px * d);
        assert((a * ay + b * by) * d == ay * ad + by * bd) by (nonlinear_arith)
            requires
                ad == a * d,
                bd == b * d,
        ;
        assert(ay * (bx * py - by * px) + by * (ay * px - ax * py) == py * (ay * bx - ax * by))
            by (nonlinear_arith);
        assert(ay * ad == ay * (bx * py - by * px));
        assert(by * bd == by * (ay * px - ax * py));
        assert((a * ay + b * by) * d == py * d);
        assert(a * ax + b * bx == px) by (nonlinear_arith)
            requires
                (a * ax + b * bx) * d == px * d,
                d != 0,
        ;
        assert(a * ay + b * by == py) by (nonlinear_arith)
            requires
                (a * ay + b * by) * d == py * d,
                d != 0,
        ;
    }

    /// Where the buttons are not parallel, the price is three times the
    /// presses of A and once the presses of B that bring the claw to the
    /// prize, both from 0 to the limit; there is no price exactly where no
    /// such presses do.
    pub proof fn lemma_price(self, press_limit: nat)
        requires
            self.determinant() != 0,
        ensures
            match self.price(press_limit) {
                Some(c) => exists|a: int, b: int|
                    #![trigger self.reaches(a, b)]
                    0 <= a <= press_limit && 0 <= b <= press_limit && self.reaches(a, b) && c == 3 * a
                        + b,
                None => forall|a: int, b: int|
                    #![trigger self.reaches(a, b)]
                    !(0 <= a <= press_limit && 0 <= b <= press_limit && self.reaches(a, b)),
            },
            forall|a: int, b: int|
                #![trigger self.reaches(a, b)]
                0 <= a <= press_limit && 0 <= b <= press_limit && self.reaches(a, b) ==> self.price(
                    press_limit,
                ) == Some((3 * a + b) as nat),
    {
        let d = self.determinant();
        assert forall|a: int, b: int|
            #![trigger self.reaches(a, b)]
            0 <= a <= press_limit && 0 <= b <= press_limit && self.reaches(a, b) implies self.price(
            press_limit,
        ) == Some((3 * a + b) as nat) by {
            self.lemma_presses(a, b);
            lemma_euclid_unique(self.a_part(), d, a, 0);
            lemma_euclid_unique(self.b_part(), d, b, 0);
        }
        if self.price(press_limit) is Some {
            let a = self.a_part() / d;
            let b = self.b_part() / d;
            vstd::arithmetic::div_mod::lemma_fundamental_div_mod(self.a_part(), d);
            vstd::arithmetic::div_mod::lemma_fundamental_div_mod(self.b_part(), d);
            assert(d * a == a * d && d * b == b * d) by (nonlinear_arith);
            self.lemma_parts_reach(a, b);
            assert(0 <= a <= press_limit && 0 <= b <= press_limit && self.reaches(a, b));
        }
    }
}

/// The product of two numbers, if its size can be held.
fn times(x: i128, y: i128) -> (r: Option<Signed>)
    ensures
        match r {
            Some(s) => s.value() == x * y,
            None => !(-(u128::MAX as int) <= x * y <= u128::MAX),
        },
{
    let xs: u128 = if x < 0 {
        if x == i128::MIN {
            0x8000_0000_0000_0000_0000_0000_0000_0000
        } else {
            (-x) as u128
        }
    } else {
        x as u128
    };
    let ys: u128 = if y < 0 {
        if y == i128::MIN {
            0x8000_0000_0000_0000_0000_0000_0000_0000
        } else {
            (-y) as u128
        }
    } else {
        y as u128
    };
    assert(xs * ys == x * y || xs * ys == -(x * y)) by (nonlinear_arith)
        requires
            xs == x || xs == -x,
            ys == y || ys == -y,
    ;
    assert((x < 0) != (y < 0) ==> x * y <= 0) by (nonlinear_arith);
    assert((x < 0) == (y < 0) ==> x * y >= 0) by (nonlinear_arith);
    match xs.checked_mul(ys) {
        Some(size) => Some(Signed { negative: (x < 0) != (y < 0) && size != 0, size }),
        None => None,
    }
}

/// The difference of two numbers, if its size can be held.
fn minus(x: Signed, y: Signed) -> (r: Option<Signed>)
    ensures
        match r {
            Some(s) => s.value() == x.value() - y.value(),
            None => !(-(u128::MAX as int) <= x.value() - y.value() <= u128::MAX),
        },
{
    if x.negative == y.negative {
        if x.size >= y.size {
            Some(Signed { negative: x.negative, size: x.size - y.size })
        } else {
            Some(Signed { negative: !x.negative, size: y.size - x.size })
        }
    } else {
        match x.size.checked_add(y.size) {
            Some(size) => Some(Signed { negative: x.negative, size }),
            None => None,
        }
    }
}

/// The quotient of two numbers where it is whole and not negative.
fn whole_quotient(n: Signed, d: Signed) -> (r: Option<u128>)
    requires
        d.value() != 0,
    ensures
        match r {
            Some(q) => n.value() % d.value() == 0 && n.value() / d.value() == q,
            None => n.value() % d.value() != 0 || n.value() / d.value() < 0,
        },
{
    let q = n.size / d.size;
    let rem = n.size % d.size;
    proof {
        let ns = n.size as int;
        let ds = d.size as int;
        vstd::arithmetic::div_mod::lemma_fundamental_div_mod(ns, ds);
        if rem == 0 {
            assert(ns == ds * (q as int));
            let qs: int = if n.negative == d.negative || n.size == 0 {
                q as int
            } else {
                -(q as int)
            };
            assert(n.value() == qs * d.value() + 0) by (nonlinear_arith)
                requires
                    ns == ds * (q as int),
                    n.value() == ns || n.value() == -ns,
                    d.value() == ds || d.value() == -ds,
                    (n.value() == ns) == !(n.negative && ns != 0),
                    (d.value() == ds) == !d.negative,
                    qs == (if n.negative == d.negative || ns == 0 {
                        q as int
                    } else {
                        -(q as int)
                    }),
            ;
            if d.value() > 0 {
                vstd::arithmetic::div_mod::lemma_fundamental_div_mod_converse(
                    n.value(),
                    d.value(),
                    qs,
                    0,
                );
            } else {
                lemma_div_negative(n.value(), d.value(), qs);
            }
            assert(ns > 0 ==> q > 0) by (nonlinear_arith)
                requires
                    ns == ds * (q as int),
                    ds > 0,
            ;
        } else {
            lemma_not_multiple(n.value(), d.value(), ns, ds);
        }
    }
    if rem != 0 {
        return None;
    }
    if n.negative != d.negative && n.size != 0 {
        return None;
    }
    Some(q)
}

/// A multiple of a negative number divides by it without remainder.
pub proof fn lemma_div_negative(n: int, d: int, q: int)
    requires
        d < 0,
        n == q * d,
    ensures
        n % d == 0,
        n / d == q,
{
    // Euclidean division by a negative divisor is division by its size with
    // the sign of the quotient changed
    let e = -d;
    assert(n == (-q) * e) by (nonlinear_arith)
        requires
            n == q * d,
            e == -d,
    ;
    vstd::arithmetic::div_mod::lemma_fundamental_div_mod_converse(n, e, -q, 0);
    assert(n % d == n % e && n / d == -(n / e)) by {
        lemma_neg_divisor(n, e);
    }
}

/// Division by a negative number.
pub proof fn lemma_neg_divisor(n: int, e: int)
    requires
        e > 0,
    ensures
        n % (-e) == n % e,
        n / (-e) == -(n / e),
{
    vstd::arithmetic::div_mod::lemma_fundamental_div_mod(n, e);
    vstd::arithmetic::div_mod::lemma_mod_bound(n, e);
    let q = n / e;
    let r = n % e;
    assert(n == (-q) * (-e) + r) by (nonlinear_arith)
        requires
            n == e * q + r,
    ;
    lemma_euclid_unique(n, -e, -q, r);
}

/// Quotient and remainder are the only numbers that fit.
pub proof fn lemma_euclid_unique(n: int, d: int, q: int, r: int)
    requires
        d != 0,
        n == q * d + r,
        0 <= r < (if d < 0 {
            -d
        } else {
            d
        }),
    ensures
        n / d == q,
        n % d == r,
{
    vstd::arithmetic::div_mod::lemma_fundamental_div_mod(n, d);
    let q2 = n / d;
    let r2 = n % d;
    assert(0 <= r2 < (if d < 0 {
        -d
    } else {
        d
    })) by {
        lemma_rem_bound(n, d);
    }
    assert(q == q2) by (nonlinear_arith)
        requires
            q * d + r == d * q2 + r2,
            d != 0,
            0 <= r < (if d < 0 {
                -d
            } else {
                d
            }),
            0 <= r2 < (if d < 0 {
                -d
            } else {
                d
            }),
    ;
    assert(r == r2) by (nonlinear_arith)
        requires
            q * d + r == d * q2 + r2,
            q == q2,
    ;
}

/// The remainder is not negative and smaller than the size of the divisor.
pub proof fn lemma_rem_bound(n: int, d: int)
    requires
        d != 0,
    ensures
        0 <= n % d < (if d < 0 {
            -d
        } else {
            d
        }),
{
    if d > 0 {
        vstd::arithmetic::div_mod::lemma_mod_bound(n, d);
    } else {
        assert(0 <= n % d < -d) by (nonlinear_arith)
            requires
                d < 0,
        ;
    }
}

/// What is no multiple in size is no multiple.
pub proof fn lemma_not_multiple(n: int, d: int, ns: int, ds: int)
    requires
        ds > 0,
        ns >= 0,
        ns % ds != 0,
        n == ns || n == -ns,
        d == ds || d == -ds,
    ensures
        n % d != 0,
{
    if n % d == 0 {
        vstd::arithmetic::div_mod::lemma_fundamental_div_mod(n, d);
        let q = n / d;
        let qs: int = if (n == ns) == (d == ds) {
            q
        } else {
            -q
        };
        assert(ns == qs * ds + 0) by (nonlinear_arith)
            requires
                n == d * q,
                n == ns || n == -ns,
                d == ds || d == -ds,
                qs == (if (n == ns) == (d == ds) {
                    q
                } else {
                    -q
                }),
                ds > 0,
                ns >= 0,
        ;
        vstd::arithmetic::div_mod::lemma_fundamental_div_mod_converse(ns, ds, qs, 0);
    }
}

impl ClawMachine {
    /// The least cost of reaching the prize with at most `press_limit`
    /// presses of each button; nothing where the prize cannot be reached
    /// so, or where the numbers are too large to be worked with.
    pub fn solve(&self, press_limit: u64) -> (r: Option<u64>)
        ensures
            match r {
                Some(c) => self.in_range() && self.price(press_limit as nat) == Some(c as nat),
                None => !self.in_range() || match self.price(press_limit as nat) {
                    Some(c) => c > u64::MAX,
                    None => true,
                },
            },
    {
        let m1 = match times(self.ay, self.bx) {
            Some(v) => v,
            None => {
                return None;
            },
        };
        let m2 = match times(self.ax, self.by) {
            Some(v) => v,
            None => {
                return None;
            },
        };
        let m3 = match times(self.by, self.px) {
            Some(v) => v,
            None => {
                return None;
            },
        };
        let m4 = match times(self.bx, self.py) {
            Some(v) => v,
            None => {
                return None;
            },
        };
        let m5 = match times(self.ay, self.px) {
            Some(v) => v,
            None => {
                return None;
            },
        };
        let m6 = match times(self.ax, self.py) {
            Some(v) => v,
            None => {
                return None;
            },
        };
        let determinant = match minus(m1, m2) {
            Some(v) => v,
            None => {
                return None;
            },
        };
        let a_part = match minus(m4, m3) {
            Some(v) => v,
            None => {
                return None;
            },
        };
        let b_part = match minus(m5, m6) {
            Some(v) => v,
            None => {
                return None;
            },
        };
        assert(self.in_range());
        if determinant.size == 0 {
            return None;
        }
        let a_tries = match whole_quotient(a_part, determinant) {
            Some(v) => v,
            None => {
                return None;
            },
        };
        let b_tries = match whole_quotient(b_part, determinant) {
            Some(v) => v,
            None => {
                return None;
            },
        };
        if a_tries > press_limit as u128 || b_tries > press_limit as u128 {
            return None;
        }
        let total: u128 = 3 * a_tries + b_tries;
        if total > u64::MAX as u128 {
            return None;
        }
        Some(total as u64)
    }
}

/// Where the line feeds that begin at `i` end.
pub open spec fn after_newlines(s: Seq<char>, i: int) -> int
    decreases s.len() - i,
{
    if 0 <= i < s.len() && s[i] == '\n' {
        after_newlines(s, i + 1)
    } else {
        i
    }
}

/// Where the digits that begin at `i` end.
pub open spec fn after_digits(s: Seq<char>, i: int) -> int
    decreases s.len() - i,
{
    if 0 <= i < s.len() && digit_of(s[i]) is Some {
        after_digits(s, i + 1)
    } else {
        i
    }
}

/// The text `lit` stands at `i`.
pub open spec fn lit_at(s: Seq<char>, i: int, lit: Seq<char>) -> bool {
    0 <= i && i + lit.len() <= s.len() && s.subrange(i, i + lit.len()) == lit
}

/// The number after the text `lit` at `i`, and where it ends. The number
/// has at least one digit and is at most the largest `i128`.
pub open spec fn field_at(s: Seq<char>, i: int, lit: Seq<char>) -> Option<(i128, int)> {
    if lit_at(s, i, lit) {
        let from = i + lit.len();
        let to = after_digits(s, from);
        if from < to <= s.len() {
            match decimal(s.subrange(from, to)) {
                Some(v) => if v <= i128::MAX {
                    Some((v as i128, to))
                } else {
                    None
                },
                None => None,
            }
        } else {
            None
        }
    } else {
        None
    }
}

/// A line feed stands at `i`.
pub open spec fn newline_at(s: Seq<char>, i: int) -> bool {
    0 <= i < s.len() && s[i] == '\n'
}

/// The machine that is written at `i`, after any line feeds, and where it
/// ends: three lines for button A, button B and the prize.
pub open spec fn machine_at(s: Seq<char>, i: int) -> Option<(ClawMachine, int)> {
    let i0 = after_newlines(s, i);
    match field_at(s, i0, "Button A: X+"@) {
        None => None,
        Some((ax, i1)) => match field_at(s, i1, ", Y+"@) {
            None => None,
            Some((ay, i2)) => if !newline_at(s, i2) {
                None
            } else {
                match field_at(s, i2 + 1, "Button B: X+"@) {
                    None => None,
                    Some((bx, i3)) => match field_at(s, i3, ", Y+"@) {
                        None => None,
                        Some((by, i4)) => if !newline_at(s, i4) {
                            None
                        } else {
                            match field_at(s, i4 + 1, "Prize: X="@) {
                                None => None,
                                Some((px, i5)) => match field_at(s, i5, ", Y="@) {
                                    None => None,
                                    Some((py, i6)) => Some(
                                        (
                                            ClawMachine { ax, ay, bx, by, px, py },
                                            if newline_at(s, i6) {
                                                i6 + 1
                                            } else {
                                                i6
                                            },
                                        ),
                                    ),
                                },
                            }
                        },
                    },
                }
            },
        },
    }
}

/// The machines written one after the other from `i` on, up to the first
/// place where none is written.
pub open spec fn machines_from(s: Seq<char>, i: int) -> Seq<ClawMachine>
    decreases s.len() - i,
{
    if i < 0 || i >= s.len() {
        Seq::empty()
    } else {
        match machine_at(s, i) {
            Some((m, j)) => if i < j <= s.len() {
                seq![m] + machines_from(s, j)
            } else {
                Seq::empty()
            },
            None => Seq::empty(),
        }
    }
}

fn skip_newlines(s: &Vec<char>, i: usize) -> (j: usize)
    requires
        i <= s.len(),
    ensures
        j == after_newlines(s@, i as int),
        i <= j <= s.len(),
{
    let mut j = i;
    while j < s.len() && s[j] == '\n'
        invariant
            i <= j <= s.len(),
            after_newlines(s@, i as int) == after_newlines(s@, j as int),
        decreases s.len() - j,
    {
        j += 1;
    }
    j
}

fn has_literal(s: &Vec<char>, i: usize, lit: &Vec<char>) -> (b: bool)
    requires
        i <= s.len(),
    ensures
        b == lit_at(s@, i as int, lit@),
{
    if lit.len() > s.len() - i {
        return false;
    }
    let mut k: usize = 0;
    while k < lit.len()
        invariant
            k <= lit.len(),
            i + lit.len() <= s.len(),
            forall|j: int| 0 <= j < k ==> s@[i + j] == lit@[j],
        decreases lit.len() - k,
    {
        if s[i + k] != lit[k] {
            assert(s@.subrange(i as int, i + lit.len())[k as int] != lit@[k as int]);
            return false;
        }
        k += 1;
    }
    assert(s@.subrange(i as int, i + lit.len()) =~= lit@);
    true
}

/// The digits from `from` on are the same whether the count begins at
/// `from` or later among them.
proof fn lemma_after_digits(s: Seq<char>, from: int, j: int)
    requires
        0 <= from <= j <= s.len(),
        forall|k: int| from <= k < j ==> digit_of(s[k]) is Some,
    ensures
        after_digits(s, from) == after_digits(s, j),
    decreases j - from,
{
    if from < j {
        lemma_after_digits(s, from + 1, j);
    }
}

fn parse_field(s: &Vec<char>, i: usize, lit: &Vec<char>) -> (r: Option<(i128, usize)>)
    requires
        i <= s.len(),
    ensures
        match r {
            Some((v, j)) => field_at(s@, i as int, lit@) == Some((v, j as int)) && i < j <= s.len(),
            None => field_at(s@, i as int, lit@) is None,
        },
{
    if !has_literal(s, i, lit) {
        return None;
    }
    let from = i + lit.len();
    let mut j: usize = from;
    let mut acc: u128 = 0;
    let mut too_big = false;
    let max: u128 = i128::MAX as u128;
    while j < s.len() && digit_value(s[j]).is_some()
        invariant
            from <= j <= s.len(),
            max == i128::MAX,
            forall|k: int| from <= k < j ==> digit_of(s@[k]) is Some,
            j > from && !too_big ==> decimal(s@.subrange(from as int, j as int)) == Some(acc as nat),
            j > from && too_big ==> match decimal(s@.subrange(from as int, j as int)) {
                Some(v) => v > max,
                None => false,
            },
            j == from ==> acc == 0 && !too_big,
            acc <= max,
        decreases s.len() - j,
    {
        let d = digit_value(s[j]).unwrap();
        proof {
            let t = s@.subrange(from as int, j + 1);
            assert(t.drop_last() =~= s@.subrange(from as int, j as int));
            assert(t.last() == s@[j as int]);
        }
        if !too_big {
            if acc > (max - d as u128) / 10 {
                too_big = true;
            } else {
                acc = acc * 10 + d as u128;
            }
        }
        j += 1;
    }
    proof {
        lemma_after_digits(s@, from as int, j as int);
    }
    if j == from || too_big {
        return None;
    }
    Some((acc as i128, j))
}

/// Reads one machine.
pub fn claw_machine_parser(s: &Vec<char>, i: usize) -> (r: Option<(ClawMachine, usize)>)
    requires
        i <= s.len(),
    ensures
        match r {
            Some((m, j)) => machine_at(s@, i as int) == Some((m, j as int)) && i < j <= s.len(),
            None => machine_at(s@, i as int) is None,
        },
{
    let button_a = chars_of("Button A: X+");
    let button_b = chars_of("Button B: X+");
    let plus_y = chars_of(", Y+");
    let prize = chars_of("Prize: X=");
    let equals_y = chars_of(", Y=");
    let i0 = skip_newlines(s, i);
    let (ax, i1) = match parse_field(s, i0, &button_a) {
        Some(f) => f,
        None => {
            return None;
        },
    };
    let (ay, i2) = match parse_field(s, i1, &plus_y) {
        Some(f) => f,
        None => {
            return None;
        },
    };
    if i2 >= s.len() || s[i2] != '\n' {
        return None;
    }
    let (bx, i3) = match parse_field(s, i2 + 1, &button_b) {
        Some(f) => f,
        None => {
            return None;
        },
    };
    let (by, i4) = match parse_field(s, i3, &plus_y) {
        Some(f) => f,
        None => {
            return None;
        },
    };
    if i4 >= s.len() || s[i4] != '\n' {
        return None;
    }
    let (px, i5) = match parse_field(s, i4 + 1, &prize) {
        Some(f) => f,
        None => {
            return None;
        },
    };
    let (py, i6) = match parse_field(s, i5, &equals_y) {
        Some(f) => f,
        None => {
            return None;
        },
    };
    let end = if i6 < s.len() && s[i6] == '\n' {
        i6 + 1
    } else {
        i6
    };
    Some((ClawMachine { ax, ay, bx, by, px, py }, end))
}

/// Reads all machines from a text, up to the first place where none is
/// written.
pub fn parse_input(input: &str) -> (machines: Vec<ClawMachine>)
    ensures
        machines@ == machines_from(input@, 0),
{
    let s = chars_of(input);
    let mut machines: Vec<ClawMachine> = Vec::new();
    let mut i: usize = 0;
    assert(machines@ + machines_from(s@, 0) =~= machines_from(s@, 0));
    while i < s.len()
        invariant
            i <= s.len(),
            s@ == input@,
            machines@ + machines_from(s@, i as int) == machines_from(s@, 0),
        decreases s.len() - i,
    {
        match claw_machine_parser(&s, i) {
            Some((m, j)) => {
                proof {
                    assert(machines@.push(m) + machines_from(s@, j as int) =~= machines@ + (seq![m]
                        + machines_from(s@, j as int)));
                }
                machines.push(m);
                i = j;
            },
            None => {
                assert(machines@ + Seq::<ClawMachine>::empty() =~= machines@);
                return machines;
            },
        }
    }
    assert(machines@ + Seq::<ClawMachine>::empty() =~= machines@);
    machines
}

/// What a machine adds to the total: its price within 100 presses of each
/// button, if it has one that can be held.
pub open spec fn fee(m: ClawMachine) -> nat {
    if m.in_range() {
        match m.price(100) {
            Some(c) => c,
            None => 0,
        }
    } else {
        0
    }
}

/// The sum of the fees of the machines.
pub open spec fn total_fee(machines: Seq<ClawMachine>) -> nat
    decreases machines.len(),
{
    if machines.len() == 0 {
        0
    } else {
        total_fee(machines.drop_last()) + fee(machines.last())
    }
}

pub proof fn lemma_fee_bound(m: ClawMachine)
    ensures
        fee(m) <= 400,
{
}

pub proof fn lemma_total_fee_bound(machines: Seq<ClawMachine>)
    ensures
        total_fee(machines) <= 400 * machines.len(),
    decreases machines.len(),
{
    if machines.len() > 0 {
        lemma_total_fee_bound(machines.drop_last());
        lemma_fee_bound(machines.last());
    }
}

/// The least total cost of winning every prize that can be won with at
/// most 100 presses of each button, written in decimal.
pub fn process_part1(input: &str) -> (out: String)
    ensures
        out@ == decimal_digits(total_fee(machines_from(input@, 0))),
{
    let machines = parse_input(input);
    let mut total: u128 = 0;
    let mut i: usize = 0;
    while i < machines.len()
        invariant
            i <= machines.len(),
            total == total_fee(machines@.take(i as int)),
        decreases machines.len() - i,
    {
        proof {
            assert(machines@.take(i + 1).drop_last() =~= machines@.take(i as int));
            lemma_total_fee_bound(machines@.take(i as int));
            lemma_fee_bound(machines@[i as int]);
        }
        let cost = match machines[i].solve(100) {
            Some(c) => c,
            None => 0,
        };
        total += cost as u128;
        i += 1;
    }
    assert(machines@.take(machines.len() as int) =~= machines@);
    string_of(&to_decimal(total))
}

} // verus!
