//! Calibration equations: a target and numbers between which the
//! operators `+` and `*` are to be put, worked out from left to right, so
//! that the target comes out.

use vstd::prelude::*;
use crate::text::{
    chars_of, fields_of, lines_of, parse_signed, signed_of, split_lines, split_whitespace, views,
};

verus! {

/// The number can be held in 64 bits.
pub open spec fn fits(v: int) -> bool {
    i64::MIN <= v <= i64::MAX
}

/// What an operator makes of two numbers.
pub open spec fn applied(op: char, a: int, b: int) -> Option<int> {
    if op == '+' {
        Some(a + b)
    } else if op == '*' {
        Some(a * b)
    } else {
        None
    }
}

/// What comes out when the first `k` operators have been applied from left
/// to right. Nothing comes out of an operator that is neither `+` nor `*`,
/// where a number is missing, or where a result cannot be held in 64 bits.
pub open spec fn evaluated(nums: Seq<i64>, ops: Seq<char>, k: int) -> Option<int>
    decreases k,
{
    if nums.len() == 0 {
        None
    } else if k <= 0 {
        Some(nums[0] as int)
    } else if k >= nums.len() || k > ops.len() {
        None
    } else {
        match evaluated(nums, ops, k - 1) {
            None => None,
            Some(acc) => match applied(ops[k - 1], acc, nums[k] as int) {
                Some(v) => if fits(v) {
                    Some(v)
                } else {
                    None
                },
                None => None,
            },
        }
    }
}

/// One operator applied to two numbers.
fn apply(op: char, a: i64, b: i64) -> (r: Option<i64>)
    ensures
        match r {
            Some(v) => applied(op, a as int, b as int) == Some(v as int),
            None => match applied(op, a as int, b as int) {
                Some(v) => !fits(v),
                None => true,
            },
        },
{
    let wide: i128 = if op == '+' {
        a as i128 + b as i128
    } else if op == '*' {
        assert(-0x8000_0000_0000_0000 * 0x8000_0000_0000_0000 <= a * b <= 0x8000_0000_0000_0000
            * 0x8000_0000_0000_0000) by (nonlinear_arith)
            requires
                -0x8000_0000_0000_0000 <= a <= 0x7fff_ffff_ffff_ffff,
                -0x8000_0000_0000_0000 <= b <= 0x7fff_ffff_ffff_ffff,
        ;
        a as i128 * b as i128
    } else {
        return None;
    };
    if wide < i64::MIN as i128 || wide > i64::MAX as i128 {
        None
    } else {
        Some(wide as i64)
    }
}

/// Works an equation out from left to right.
pub fn evaluate_left_to_right(nums: &Vec<i64>, ops: &Vec<char>) -> (r: Option<i64>)
    ensures
        match r {
            Some(v) => evaluated(nums@, ops@, ops.len() as int) == Some(v as int),
            None => evaluated(nums@, ops@, ops.len() as int) is None,
        },
{
    if nums.len() == 0 {
        return None;
    }
    if ops.len() >= nums.len() {
        return None;
    }
    let mut result = nums[0];
    let mut i: usize = 0;
    while i < ops.len()
        invariant
            i <= ops.len() < nums.len(),
            evaluated(nums@, ops@, i as int) == Some(result as int),
        decreases ops.len() - i,
    {
        match apply(ops[i], result, nums[i + 1]) {
            Some(v) => {
                result = v;
            },
            None => {
                proof {
                    assert(evaluated(nums@, ops@, i + 1) is None);
                    lemma_evaluated_stuck(nums@, ops@, i + 1, ops.len() as int);
                }
                return None;
            },
        }
        i += 1;
    }
    Some(result)
}

/// Once nothing comes out, nothing comes out later.
pub proof fn lemma_evaluated_stuck(nums: Seq<i64>, ops: Seq<char>, k: int, n: int)
    requires
        0 <= k <= n,
        evaluated(nums, ops, k) is None,
    ensures
        evaluated(nums, ops, n) is None,
    decreases n - k,
{
    if k < n {
        lemma_evaluated_stuck(nums, ops, k, n - 1);
    }
}

/// With `acc` worked out from the numbers before the `i`-th, some choice
/// of operators for the rest makes the target, every result on the way
/// fitting into 64 bits.
pub open spec fn attainable(nums: Seq<i64>, i: int, acc: int, target: int) -> bool
    decreases nums.len() - i,
{
    if i >= nums.len() {
        acc == target
    } else {
        (fits(acc + nums[i]) && attainable(nums, i + 1, acc + nums[i], target)) || (fits(
            acc * nums[i],
        ) && attainable(nums, i + 1, acc * nums[i], target))
    }
}

/// Operators that are `+` or `*`, one fewer than there are numbers, with
/// which the target comes out.
pub open spec fn solves(nums: Seq<i64>, ops: Seq<char>, target: int) -> bool {
    &&& ops.len() + 1 == nums.len()
    &&& forall|k: int| 0 <= k < ops.len() ==> #[trigger] ops[k] == '+' || ops[k] == '*'
    &&& evaluated(nums, ops, ops.len() as int) == Some(target)
}

/// Operators chosen for the numbers from the `i`-th on can be put after
/// operators that lead to `acc`.
pub proof fn lemma_attainable_solves(nums: Seq<i64>, ops: Seq<char>, i: int, target: int) -> (all: Seq<
    char,
>)
    requires
        1 <= i <= nums.len(),
        ops.len() == i - 1,
        forall|k: int| 0 <= k < ops.len() ==> #[trigger] ops[k] == '+' || ops[k] == '*',
        evaluated(nums, ops, i - 1) is Some,
        attainable(nums, i, evaluated(nums, ops, i - 1).unwrap(), target),
    ensures
        solves(nums, all, target),
    decreases nums.len() - i,
{
    let acc = evaluated(nums, ops, i - 1).unwrap();
    if i >= nums.len() {
        ops
    } else {
        let op = if fits(acc + nums[i]) && attainable(nums, i + 1, acc + nums[i], target) {
            '+'
        } else {
            '*'
        };
        let next = ops.push(op);
        lemma_evaluated_same(nums, ops, next, i - 1);
        assert(next[i - 1] == op);
        lemma_attainable_solves(nums, next, i + 1, target)
    }
}

/// What comes out of the first `k` operators depends on them alone.
pub proof fn lemma_evaluated_same(nums: Seq<i64>, a: Seq<char>, b: Seq<char>, k: int)
    requires
        0 <= k <= a.len(),
        k <= b.len(),
        forall|j: int| 0 <= j < k ==> a[j] == b[j],
    ensures
        evaluated(nums, a, k) == evaluated(nums, b, k),
    decreases k,
{
    if k > 0 {
        lemma_evaluated_same(nums, a, b, k - 1);
    }
}

/// Operators with which the target comes out show that it is attainable.
pub proof fn lemma_solves_attainable(nums: Seq<i64>, ops: Seq<char>, i: int, target: int)
    requires
        solves(nums, ops, target),
        1 <= i <= nums.len(),
    ensures
        evaluated(nums, ops, i - 1) is Some,
        attainable(nums, i, evaluated(nums, ops, i - 1).unwrap(), target),
    decreases nums.len() - i,
{
    if evaluated(nums, ops, i - 1) is None {
        lemma_evaluated_stuck(nums, ops, i - 1, ops.len() as int);
    }
    if i < nums.len() {
        lemma_solves_attainable(nums, ops, i + 1, target);
        assert(ops[i - 1] == '+' || ops[i - 1] == '*');
    }
}

/// The target is attainable exactly if operators exist with which it comes
/// out.
pub proof fn lemma_attainable_iff_solvable(nums: Seq<i64>, target: int)
    requires
        nums.len() > 0,
    ensures
        attainable(nums, 1, nums[0] as int, target) <==> exists|ops: Seq<char>| #[trigger]
            solves(nums, ops, target),
{
    if attainable(nums, 1, nums[0] as int, target) {
        let all = lemma_attainable_solves(nums, Seq::empty(), 1, target);
        assert(solves(nums, all, target));
    }
    if exists|ops: Seq<char>| #[trigger] solves(nums, ops, target) {
        let ops = choose|ops: Seq<char>| #[trigger] solves(nums, ops, target);
        lemma_solves_attainable(nums, ops, 1, target);
    }
}

/// Tries both operators for the `i`-th number and all after it.
fn search(nums: &Vec<i64>, i: usize, acc: i64, target: i64) -> (b: bool)
    requires
        i <= nums.len(),
    ensures
        b == attainable(nums@, i as int, acc as int, target as int),
    decreases nums.len() - i,
{
    if i >= nums.len() {
        return acc == target;
    }
    match apply('+', acc, nums[i]) {
        Some(v) => {
            if search(nums, i + 1, v, target) {
                return true;
            }
        },
        None => {},
    }
    match apply('*', acc, nums[i]) {
        Some(v) => search(nums, i + 1, v, target),
        None => false,
    }
}

/// Whether some choice of `+` and `*` between the numbers makes the target.
pub fn generate_all_operations(nums: &Vec<i64>, target: i64) -> (valid: bool)
    ensures
        valid == (nums.len() > 0 && attainable(nums@, 1, nums@[0] as int, target as int)),
{
    if nums.len() == 0 {
        return false;
    }
    search(nums, 1, nums[0], target)
}

/// `": "` stands at `k`.
pub open spec fn colon_here(s: Seq<char>, k: int) -> bool {
    s[k] == ':' && s[k + 1] == ' '
}

/// Where `": "` first stands in a line; -1 if it stands nowhere.
pub open spec fn colon_at(s: Seq<char>) -> int
    decreases s.len(),
{
    if s.len() < 2 {
        -1
    } else if s[0] == ':' && s[1] == ' ' {
        0
    } else {
        let rest = colon_at(s.drop_first());
        if rest < 0 {
            -1
        } else {
            rest + 1
        }
    }
}

pub proof fn lemma_colon_at(s: Seq<char>, n: int)
    requires
        0 <= n,
        forall|k: int| 0 <= k < n && k + 1 < s.len() ==> !#[trigger] colon_here(s, k),
        n + 1 >= s.len() || colon_here(s, n),
    ensures
        colon_at(s) == (if n + 1 >= s.len() {
            -1
        } else {
            n
        }),
    decreases s.len(),
{
    if s.len() >= 2 && n > 0 {
        let t = s.drop_first();
        assert(!colon_here(s, 0));
        assert forall|k: int| 0 <= k < n - 1 && k + 1 < t.len() implies !#[trigger] colon_here(t, k) by {
            assert(t[k] == s[k + 1] && t[k + 1] == s[k + 2]);
            assert(!colon_here(s, k + 1));
        }
        lemma_colon_at(t, n - 1);
    }
}

/// The numbers that the words hold; nothing if a word is no number.
pub open spec fn numbers_of(words: Seq<Seq<char>>) -> Option<Seq<i64>>
    decreases words.len(),
{
    if words.len() == 0 {
        Some(Seq::empty())
    } else {
        match (
            numbers_of(words.drop_last()),
            signed_of(words.last(), i64::MIN as int, i64::MAX as int),
        ) {
            (Some(front), Some(v)) => Some(front.push(v as i64)),
            _ => None,
        }
    }
}

pub proof fn lemma_numbers_grow(words: Seq<Seq<char>>, n: int)
    requires
        0 <= n <= words.len(),
    ensures
        numbers_of(words.take(n)) is None ==> numbers_of(words) is None,
    decreases words.len() - n,
{
    if n < words.len() {
        lemma_numbers_grow(words, n + 1);
        assert(words.take(n + 1).drop_last() =~= words.take(n));
    } else {
        assert(words.take(n) =~= words);
    }
}

/// An equation: the target and the numbers.
pub struct Equation {
    pub target: i64,
    pub numbers: Vec<i64>,
}

/// What a line says: nothing that counts if it holds no `": "`, else the
/// equation before and after the first `": "`, or an error if that is none.
pub open spec fn equation_of(line: Seq<char>) -> Option<Option<(i64, Seq<i64>)>> {
    let at = colon_at(line);
    if at < 0 || at + 2 > line.len() {
        Some(None)
    } else {
        match (
            signed_of(line.take(at), i64::MIN as int, i64::MAX as int),
            numbers_of(fields_of(line.skip(at + 2))),
        ) {
            (Some(t), Some(ns)) => Some(Some((t as i64, ns))),
            _ => None,
        }
    }
}

/// What an equation adds to the total: its target, if it can be made.
pub open spec fn worth(e: Option<(i64, Seq<i64>)>) -> int {
    match e {
        Some((target, nums)) => if nums.len() > 0 && attainable(
            nums,
            1,
            nums[0] as int,
            target as int,
        ) {
            target as int
        } else {
            0
        },
        None => 0,
    }
}

/// The sum of the targets that can be made; nothing if a line with `": "`
/// holds no equation.
pub open spec fn total_of(lines: Seq<Seq<char>>) -> Option<int>
    decreases lines.len(),
{
    if lines.len() == 0 {
        Some(0)
    } else {
        match (total_of(lines.drop_last()), equation_of(lines.last())) {
            (Some(front), Some(e)) => Some(front + worth(e)),
            _ => None,
        }
    }
}

pub proof fn lemma_total_grow(lines: Seq<Seq<char>>, n: int)
    requires
        0 <= n <= lines.len(),
    ensures
        total_of(lines.take(n)) is None ==> total_of(lines) is None,
        total_of(lines.take(n)) is Some ==> -0x8000_0000_0000_0000 * n <= total_of(
            lines.take(n),
        ).unwrap() <= 0x8000_0000_0000_0000 * n,
    decreases lines.len() - n,
{
    if n < lines.len() {
        lemma_total_grow(lines, n + 1);
        assert(lines.take(n + 1).drop_last() =~= lines.take(n));
    } else {
        assert(lines.take(n) =~= lines);
    }
    lemma_total_bound(lines.take(n));
}

pub proof fn lemma_total_bound(lines: Seq<Seq<char>>)
    ensures
        total_of(lines) is Some ==> -0x8000_0000_0000_0000 * lines.len() <= total_of(lines).unwrap()
            <= 0x8000_0000_0000_0000 * lines.len(),
    decreases lines.len(),
{
    if lines.len() > 0 {
        lemma_total_bound(lines.drop_last());
    }
}

/// Reads the equation of one line.
fn parse_equation(line: &Vec<char>) -> (r: Option<Option<Equation>>)
    ensures
        match r {
            None => equation_of(line@) is None,
            Some(None) => equation_of(line@) == Some(None::<(i64, Seq<i64>)>),
            Some(Some(e)) => equation_of(line@) == Some(Some((e.target, e.numbers@))),
        },
{
    let n = line.len();
    let mut at: usize = 0;
    while n - at > 1 && !(line[at] == ':' && line[at + 1] == ' ')
        invariant
            at <= n,
            n == line.len(),
            forall|k: int| 0 <= k < at && k + 1 < n ==> !#[trigger] colon_here(line@, k),
        decreases n - at,
    {
        at += 1;
    }
    proof {
        lemma_colon_at(line@, at as int);
    }
    if n - at <= 1 {
        return Some(None);
    }
    let mut head: Vec<char> = Vec::new();
    let mut i: usize = 0;
    while i < at
        invariant
            i <= at < n,
            n == line.len(),
            head@ == line@.take(i as int),
        decreases at - i,
    {
        head.push(line[i]);
        assert(head@ =~= line@.take(i + 1));
        i += 1;
    }
    let rest = crate::text::tail(line, at + 2);
    let target = match parse_signed(&head, i64::MIN as i128, i64::MAX as i128) {
        Some(v) => v as i64,
        None => {
            return None;
        },
    };
    let words = split_whitespace(&rest);
    let ghost all = views(words@);
    let mut numbers: Vec<i64> = Vec::new();
    let mut k: usize = 0;
    while k < words.len()
        invariant
            k <= words.len(),
            all == views(words@),
            numbers_of(all.take(k as int)) == Some(numbers@),
            equation_of(line@) == (match numbers_of(all) {
                Some(ns) => Some(Some((target, ns))),
                None => None,
            }),
        decreases words.len() - k,
    {
        proof {
            assert(all.take(k + 1).drop_last() =~= all.take(k as int));
            assert(all.take(k + 1).last() == words@[k as int]@);
            lemma_numbers_grow(all, k + 1);
        }
        match parse_signed(&words[k], i64::MIN as i128, i64::MAX as i128) {
            Some(v) => {
                numbers.push(v as i64);
            },
            None => {
                assert(numbers_of(all.take(k + 1)) is None);
                return None;
            },
        }
        k += 1;
    }
    assert(all.take(words.len() as int) =~= all);
    Some(Some(Equation { target, numbers }))
}

/// The sum of the targets of the equations that can be made true, one
/// equation per line.
pub fn total_calibration_result(input: &str) -> (r: Option<i128>)
    ensures
        match r {
            Some(t) => total_of(lines_of(input@)) == Some(t as int),
            None => total_of(lines_of(input@)) is None,
        },
{
    let text = chars_of(input);
    let lines = split_lines(&text);
    let ghost all = views(lines@);
    let mut total: i128 = 0;
    let mut i: usize = 0;
    while i < lines.len()
        invariant
            i <= lines.len(),
            all == views(lines@),
            all == lines_of(input@),
            total_of(all.take(i as int)) == Some(total as int),
        decreases lines.len() - i,
    {
        proof {
            assert(all.take(i + 1).drop_last() =~= all.take(i as int));
            assert(all.take(i + 1).last() == lines@[i as int]@);
            lemma_total_grow(all, i + 1);
            lemma_total_grow(all, i as int);
            assert(0x8000_0000_0000_0000 * i <= 0x8000_0000_0000_0000 * 0xffff_ffff_ffff_ffff)
                by (nonlinear_arith)
                requires
                    i <= 0xffff_ffff_ffff_ffff,
            ;
        }
        match parse_equation(&lines[i]) {
            None => {
                assert(total_of(all.take(i + 1)) is None);
                return None;
            },
            Some(None) => {},
            Some(Some(e)) => {
                if generate_all_operations(&e.numbers, e.target) {
                    total += e.target as i128;
                }
            },
        }
        i += 1;
    }
    assert(all.take(lines.len() as int) =~= all);
    Some(total)
}

} // verus!
