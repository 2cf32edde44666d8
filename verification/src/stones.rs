//! Stones engraved with numbers that change at every blink.

use vstd::prelude::*;
use crate::text::{chars_of, fields_of, parse_unsigned, split_whitespace, unsigned_of, views};

verus! {

/// How many decimal digits a number has.
pub open spec fn digit_count(n: nat) -> nat
    decreases n,
{
    if n < 10 {
        1
    } else {
        1 + digit_count(n / 10)
    }
}

/// Ten to the power of `k`.
pub open spec fn pow10(k: nat) -> nat
    decreases k,
{
    if k == 0 {
        1
    } else {
        10 * pow10((k - 1) as nat)
    }
}

/// The two halves of the digits of a number: the left half has the digits
/// before the middle, the right half those from the middle on. A number of
/// one digit has an empty left half, worth 0.
pub open spec fn halves(n: nat) -> (nat, nat) {
    let right_digits = (digit_count(n) - digit_count(n) / 2) as nat;
    (n / pow10(right_digits), n % pow10(right_digits))
}

/// What becomes of a stone at a blink: 0 becomes 1; a number with an even
/// count of digits splits into its two halves; any other number is
/// multiplied by 2024. Nothing becomes of a stone whose product exceeds 64
/// bits.
pub open spec fn changed(v: u64) -> Option<Seq<u64>> {
    if v == 0 {
        Some(seq![1u64])
    } else if digit_count(v as nat) % 2 == 0 {
        Some(seq![halves(v as nat).0 as u64, halves(v as nat).1 as u64])
    } else if v * 2024 <= u64::MAX {
        Some(seq![(v * 2024) as u64])
    } else {
        None
    }
}

/// What becomes of a row of stones at a blink.
pub open spec fn blinked(stones: Seq<u64>) -> Option<Seq<u64>>
    decreases stones.len(),
{
    if stones.len() == 0 {
        Some(Seq::empty())
    } else {
        match (blinked(stones.drop_last()), changed(stones.last())) {
            (Some(front), Some(next)) => Some(front + next),
            _ => None,
        }
    }
}

/// What becomes of a row of stones after a number of blinks.
pub open spec fn after_blinks(stones: Seq<u64>, blinks: nat) -> Option<Seq<u64>>
    decreases blinks,
{
    if blinks == 0 {
        Some(stones)
    } else {
        match after_blinks(stones, (blinks - 1) as nat) {
            Some(s) => blinked(s),
            None => None,
        }
    }
}

pub proof fn lemma_pow10_bound(k: nat)
    requires
        k <= 19,
    ensures
        pow10(k) <= 10_000_000_000_000_000_000,
        pow10(k) >= 1,
    decreases k,
{
    reveal_with_fuel(pow10, 20);
}

pub proof fn lemma_digit_count(n: nat)
    ensures
        digit_count(n) >= 1,
        n < pow10(digit_count(n)),
        n >= 10 ==> n >= pow10((digit_count(n) - 1) as nat),
    decreases n,
{
    if n >= 10 {
        lemma_digit_count(n / 10);
        let k = digit_count(n / 10);
        assert(n < 10 * pow10(k)) by (nonlinear_arith)
            requires
                n / 10 < pow10(k),
        ;
        if n / 10 >= 10 {
            assert(n >= 10 * pow10((k - 1) as nat)) by (nonlinear_arith)
                requires
                    n / 10 >= pow10((k - 1) as nat),
            ;
        } else {
            assert(k == 1);
            assert(pow10(0) == 1);
        }
    } else {
        assert(pow10(1) == 10) by {
            reveal_with_fuel(pow10, 2);
        }
    }
}

/// How many decimal digits a number has, and ten to that power's half.
pub fn count_digits(num: u64) -> (n: u32)
    ensures
        n == digit_count(num as nat),
        1 <= n <= 20,
{
    let mut n: u32 = 1;
    let mut rest = num;
    proof {
        lemma_count_bound(num as nat);
    }
    while rest >= 10
        invariant
            1 <= n,
            digit_count(num as nat) == n - 1 + digit_count(rest as nat),
            n - 1 + digit_count(rest as nat) <= 20,
        decreases rest,
    {
        rest = rest / 10;
        n += 1;
    }
    proof {
        lemma_count_bound(num as nat);
    }
    n
}

pub proof fn lemma_count_bound(n: nat)
    requires
        n <= u64::MAX,
    ensures
        digit_count(n) <= 20,
{
    reveal_with_fuel(digit_count, 21);
}

/// Ten to the power of `k`.
pub fn power_of_ten(k: u32) -> (p: u64)
    requires
        k <= 19,
    ensures
        p == pow10(k as nat),
{
    let mut p: u64 = 1;
    let mut i: u32 = 0;
    while i < k
        invariant
            i <= k <= 19,
            p == pow10(i as nat),
        decreases k - i,
    {
        proof {
            lemma_pow10_bound((i + 1) as nat);
        }
        p = p * 10;
        i += 1;
    }
    p
}

/// The two halves of the digits of a number.
pub fn split_number(num: u64) -> (r: (u64, u64))
    ensures
        (r.0 as nat, r.1 as nat) == halves(num as nat),
{
    let n = count_digits(num);
    let mid = n / 2;
    let right_digits = n - mid;
    if right_digits >= 20 {
        // twenty digits would take ten as the right half
        return (0, num);
    }
    let p = power_of_ten(right_digits);
    proof {
        lemma_pow10_bound(right_digits as nat);
    }
    (num / p, num % p)
}

/// What becomes of a stone at a blink.
pub fn transform(value: u64) -> (r: Option<Vec<u64>>)
    ensures
        match r {
            Some(next) => changed(value) == Some(next@),
            None => changed(value) is None,
        },
{
    let mut next: Vec<u64> = Vec::new();
    if value == 0 {
        next.push(1);
        assert(next@ =~= seq![1u64]);
        return Some(next);
    }
    if count_digits(value) % 2 == 0 {
        let (left, right) = split_number(value);
        next.push(left);
        next.push(right);
        assert(next@ =~= seq![halves(value as nat).0 as u64, halves(value as nat).1 as u64]);
        return Some(next);
    }
    match value.checked_mul(2024) {
        Some(v) => {
            next.push(v);
            assert(next@ =~= seq![(value * 2024) as u64]);
            Some(next)
        },
        None => None,
    }
}

/// A row of stones becomes nothing if a front part of it becomes nothing.
pub proof fn lemma_blinked_grows(stones: Seq<u64>, n: int)
    requires
        0 <= n <= stones.len(),
    ensures
        blinked(stones.take(n)) is None ==> blinked(stones) is None,
    decreases stones.len() - n,
{
    if n < stones.len() {
        lemma_blinked_grows(stones, n + 1);
        assert(stones.take(n + 1).drop_last() =~= stones.take(n));
    } else {
        assert(stones.take(n) =~= stones);
    }
}

/// Nothing comes of nothing at later blinks.
pub proof fn lemma_after_blinks_stuck(stones: Seq<u64>, a: nat, b: nat)
    requires
        a <= b,
        after_blinks(stones, a) is None,
    ensures
        after_blinks(stones, b) is None,
    decreases b - a,
{
    if a < b {
        lemma_after_blinks_stuck(stones, a, (b - 1) as nat);
    }
}

/// What becomes of a row of stones at a blink.
pub fn blink(stones: &Vec<u64>) -> (r: Option<Vec<u64>>)
    ensures
        match r {
            Some(next) => blinked(stones@) == Some(next@),
            None => blinked(stones@) is None,
        },
{
    let mut new_queue: Vec<u64> = Vec::new();
    let mut i: usize = 0;
    while i < stones.len()
        invariant
            i <= stones.len(),
            blinked(stones@.take(i as int)) == Some(new_queue@),
        decreases stones.len() - i,
    {
        proof {
            assert(stones@.take(i + 1).drop_last() =~= stones@.take(i as int));
            lemma_blinked_grows(stones@, i + 1);
        }
        match transform(stones[i]) {
            Some(mut next) => {
                new_queue.append(&mut next);
            },
            None => {
                assert(blinked(stones@.take(i + 1)) is None);
                return None;
            },
        }
        i += 1;
    }
    assert(stones@.take(stones.len() as int) =~= stones@);
    Some(new_queue)
}

/// How many stones there are after a number of blinks; nothing if a
/// number on a stone exceeds 64 bits.
pub fn simulate_blinks(stones: Vec<u64>, blinks: usize) -> (r: Option<usize>)
    ensures
        match r {
            Some(n) => match after_blinks(stones@, blinks as nat) {
                Some(s) => n == s.len(),
                None => false,
            },
            None => after_blinks(stones@, blinks as nat) is None,
        },
{
    let ghost start = stones@;
    let mut queue = stones;
    let mut i: usize = 0;
    while i < blinks
        invariant
            i <= blinks,
            start == stones@,
            after_blinks(start, i as nat) == Some(queue@),
        decreases blinks - i,
    {
        match blink(&queue) {
            Some(next) => {
                queue = next;
            },
            None => {
                proof {
                    assert(after_blinks(start, (i + 1) as nat) is None);
                    lemma_after_blinks_stuck(start, (i + 1) as nat, blinks as nat);
                }
                return None;
            },
        }
        i += 1;
    }
    Some(queue.len())
}


/// The numbers that the first `n` words hold; nothing if a word is no
/// number that 64 bits hold.
pub open spec fn numbers_of(words: Seq<Seq<char>>, n: int) -> Option<Seq<u64>>
    decreases n,
{
    if n <= 0 {
        Some(Seq::empty())
    } else {
        match (numbers_of(words, n - 1), unsigned_of(words[n - 1], u64::MAX as nat)) {
            (Some(front), Some(v)) => Some(front.push(v as u64)),
            _ => None,
        }
    }
}

pub proof fn lemma_numbers_stuck(words: Seq<Seq<char>>, a: int, b: int)
    requires
        a <= b,
        numbers_of(words, a) is None,
    ensures
        numbers_of(words, b) is None,
    decreases b - a,
{
    if a < b {
        lemma_numbers_stuck(words, a, b - 1);
    }
}

/// Reads the stones from text: numbers parted by white space.
pub fn parse_stones(content: &str) -> (r: Option<Vec<u64>>)
    ensures
        match r {
            Some(stones) => numbers_of(fields_of(content@), fields_of(content@).len() as int) == Some(
                stones@,
            ),
            None => numbers_of(fields_of(content@), fields_of(content@).len() as int) is None,
        },
{
    let text = chars_of(content);
    let words = split_whitespace(&text);
    let ghost all = views(words@);
    let mut stones: Vec<u64> = Vec::new();
    let mut i: usize = 0;
    while i < words.len()
        invariant
            i <= words.len(),
            all == views(words@),
            all == fields_of(content@),
            numbers_of(all, i as int) == Some(stones@),
        decreases words.len() - i,
    {
        assert(all[i as int] == words@[i as int]@);
        match parse_unsigned(&words[i], u64::MAX as u128) {
            Some(v) => {
                stones.push(v as u64);
            },
            None => {
                proof {
                    assert(numbers_of(all, i + 1) is None);
                    lemma_numbers_stuck(all, i + 1, words.len() as int);
                }
                return None;
            },
        }
        i += 1;
    }
    Some(stones)
}

} // verus!
