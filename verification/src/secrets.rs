//! Secret numbers that evolve by mixing and pruning.

use vstd::prelude::*;

verus! {

/// What is left of a secret after pruning: its value modulo 16777216.
pub open spec fn pruned(x: u64) -> u64 {
    x % 16_777_216
}

/// The secret that follows `seed`: the seed is mixed, by exclusive or,
/// with itself times 64, then with itself divided by 32, then with itself
/// times 2048, and pruned after each mixing. The products are taken in 64
/// bits.
pub open spec fn next_secret(seed: u64) -> u64 {
    let a = pruned((seed << 6) ^ seed);
    let b = pruned((a >> 5) ^ a);
    pruned((b << 11) ^ b)
}

/// The secret after `rounds` steps.
pub open spec fn secret_after(seed: u64, rounds: nat) -> u64
    decreases rounds,
{
    if rounds == 0 {
        seed
    } else {
        next_secret(secret_after(seed, (rounds - 1) as nat))
    }
}

/// The secret that follows `seed`.
pub fn shsb_random(seed: u64) -> (next: u64)
    ensures
        next == next_secret(seed),
        next < 16_777_216,
{
    let seed = ((seed << 6) ^ seed) % 16_777_216;
    let seed = ((seed >> 5) ^ seed) % 16_777_216;
    let seed = ((seed << 11) ^ seed) % 16_777_216;
    seed
}

/// The secret after `rounds` steps.
pub fn evolve(seed: u64, rounds: u32) -> (s: u64)
    ensures
        s == secret_after(seed, rounds as nat),
{
    let mut s = seed;
    let mut i: u32 = 0;
    while i < rounds
        invariant
            i <= rounds,
            s == secret_after(seed, i as nat),
        decreases rounds - i,
    {
        s = shsb_random(s);
        i += 1;
    }
    s
}

/// The sum of the secrets that the buyers hold after `rounds` steps.
pub open spec fn secret_sum(seeds: Seq<u64>, rounds: nat) -> nat
    decreases seeds.len(),
{
    if seeds.len() == 0 {
        0
    } else {
        secret_sum(seeds.drop_last(), rounds) + secret_after(seeds.last(), rounds) as nat
    }
}

pub proof fn lemma_secret_sum_bound(seeds: Seq<u64>, rounds: nat)
    ensures
        secret_sum(seeds, rounds) <= seeds.len() * 0xffff_ffff_ffff_ffff,
    decreases seeds.len(),
{
    if seeds.len() > 0 {
        lemma_secret_sum_bound(seeds.drop_last(), rounds);
        assert(seeds.len() * 0xffff_ffff_ffff_ffff == (seeds.len() - 1) * 0xffff_ffff_ffff_ffff
            + 0xffff_ffff_ffff_ffff) by (nonlinear_arith);
    }
}

/// Adds up the secrets that the buyers hold after `rounds` steps.
pub fn sum_of_secrets(seeds: &Vec<u64>, rounds: u32) -> (total: u128)
    ensures
        total == secret_sum(seeds@, rounds as nat),
{
    let mut total: u128 = 0;
    let mut i: usize = 0;
    while i < seeds.len()
        invariant
            i <= seeds.len(),
            total == secret_sum(seeds@.take(i as int), rounds as nat),
        decreases seeds.len() - i,
    {
        proof {
            assert(seeds@.take(i + 1).drop_last() =~= seeds@.take(i as int));
            lemma_secret_sum_bound(seeds@.take(i as int), rounds as nat);
            assert(i * 0xffff_ffff_ffff_ffff <= 0xffff_ffff_ffff_ffff * 0xffff_ffff_ffff_ffff)
                by (nonlinear_arith)
                requires
                    i <= 0xffff_ffff_ffff_ffff,
            ;
        }
        total += evolve(seeds[i], rounds) as u128;
        i += 1;
    }
    assert(seeds@.take(seeds.len() as int) =~= seeds@);
    total
}

/// The price that a buyer offers after `k` steps: the last digit of the
/// secret.
pub open spec fn price(seed: u64, k: int) -> int {
    (secret_after(seed, k as nat) % 10) as int
}

/// How the price changes in step `i`, the first step being step 0.
pub open spec fn change(seed: u64, i: int) -> int {
    price(seed, i + 1) - price(seed, i)
}

/// Four changes in a row, the newest first.
pub type Changes = (int, int, int, int);

/// The four changes up to step `i`, the newest first.
pub open spec fn window(seed: u64, i: int) -> Changes {
    (change(seed, i), change(seed, i - 1), change(seed, i - 2), change(seed, i - 3))
}

/// The first step that is looked at: the changes of the steps before it
/// are not.
pub const FIRST_STEP: u32 = 4;

/// What a buyer sells for within the first `n` steps to one who waits for
/// the changes `key`: the price after the first step, from `FIRST_STEP`
/// on, up to which the last four changes are `key`.
pub open spec fn sale_upto(seed: u64, key: Changes, n: int) -> Option<int>
    decreases n,
{
    if n <= FIRST_STEP {
        None
    } else {
        match sale_upto(seed, key, n - 1) {
            Some(v) => Some(v),
            None => if window(seed, n - 1) == key {
                Some(price(seed, n))
            } else {
                None
            },
        }
    }
}

/// What a buyer sells for within `rounds` steps, 0 if they never sell.
pub open spec fn sale(seed: u64, key: Changes, rounds: int) -> nat {
    match sale_upto(seed, key, rounds) {
        Some(v) => v as nat,
        None => 0,
    }
}

/// What the first `n` buyers sell for to one who waits for the changes
/// `key`.
pub open spec fn bananas(seeds: Seq<u64>, key: Changes, rounds: int, n: int) -> nat
    decreases n,
{
    if n <= 0 {
        0
    } else {
        bananas(seeds, key, rounds, n - 1) + sale(seeds[n - 1], key, rounds)
    }
}

/// Each of the four changes lies between -9 and 9.
pub open spec fn small(key: Changes) -> bool {
    -9 <= key.0 <= 9 && -9 <= key.1 <= 9 && -9 <= key.2 <= 9 && -9 <= key.3 <= 9
}

/// How many rows of four small changes there are: 19 times 19 times 19
/// times 19.
pub const ROWS: usize = 130321;

/// The place of four small changes in a table of all of them.
pub open spec fn place(key: Changes) -> int {
    (((key.0 + 9) * 19 + (key.1 + 9)) * 19 + (key.2 + 9)) * 19 + (key.3 + 9)
}

/// The four small changes that have the given place.
#[verifier::opaque]
pub open spec fn at_place(idx: int) -> Changes {
    (idx / 6859 - 9, (idx / 361) % 19 - 9, (idx / 19) % 19 - 9, idx % 19 - 9)
}

/// Four small changes have a place in the table, and are found there.
pub proof fn lemma_place(key: Changes)
    requires
        small(key),
    ensures
        0 <= place(key) < ROWS,
        at_place(place(key)) == key,
{
    reveal(at_place);
}

/// At every place of the table stand four small changes, and that is
/// their place.
pub proof fn lemma_at_place(idx: int)
    requires
        0 <= idx < ROWS,
    ensures
        small(at_place(idx)),
        place(at_place(idx)) == idx,
{
    reveal(at_place);
}

/// A price is a digit.
pub proof fn lemma_sale_is_digit(seed: u64, key: Changes, n: int)
    ensures
        sale(seed, key, n) <= 9,
        sale_upto(seed, key, n) is Some ==> 0 <= sale_upto(seed, key, n).unwrap() <= 9,
    decreases n,
{
    if n > FIRST_STEP {
        lemma_sale_is_digit(seed, key, n - 1);
    }
}

/// No buyer sells to one who waits for a change that no digit can make.
pub proof fn lemma_no_sale(seed: u64, key: Changes, n: int)
    requires
        !small(key),
    ensures
        sale_upto(seed, key, n) is None,
    decreases n,
{
    if n > FIRST_STEP {
        lemma_no_sale(seed, key, n - 1);
    }
}

pub proof fn lemma_no_bananas(seeds: Seq<u64>, key: Changes, rounds: int, n: int)
    requires
        !small(key),
    ensures
        bananas(seeds, key, rounds, n) == 0,
    decreases n,
{
    if n > 0 {
        lemma_no_bananas(seeds, key, rounds, n - 1);
        lemma_no_sale(seeds[n - 1], key, rounds);
    }
}

/// What one buyer sells for, for every row of four changes: the price at
/// the place of the row, 0 where the buyer never sells.
pub fn buyer_sales(seed: u64, rounds: u32) -> (sales: Vec<u128>)
    ensures
        sales.len() == ROWS,
        forall|idx: int| 0 <= idx < ROWS ==> sales[idx] == sale(seed, #[trigger] at_place(idx), rounds as int),
{
    let s0 = seed;
    let mut sales: Vec<u128> = Vec::new();
    let mut sold: Vec<bool> = Vec::new();
    let mut k: usize = 0;
    while k < ROWS
        invariant
            k <= ROWS,
            sales.len() == k,
            sold.len() == k,
            forall|idx: int| 0 <= idx < k ==> sales[idx] == 0 && !sold[idx],
        decreases ROWS - k,
    {
        sales.push(0);
        sold.push(false);
        k += 1;
    }
    let mut seed = s0;
    let mut previous: u64 = seed % 10;
    let mut d0: i64 = 0;
    let mut d1: i64 = 0;
    let mut d2: i64 = 0;
    let mut d3: i64 = 0;
    let mut i: u32 = 0;
    while i < rounds
        invariant
            i <= rounds,
            seed == secret_after(s0, i as nat),
            previous == price(s0, i as int),
            sales.len() == ROWS,
            sold.len() == ROWS,
            -9 <= d0 <= 9 && -9 <= d1 <= 9 && -9 <= d2 <= 9 && -9 <= d3 <= 9,
            i >= 1 ==> d0 == change(s0, i - 1),
            i >= 2 ==> d1 == change(s0, i - 2),
            i >= 3 ==> d2 == change(s0, i - 3),
            i >= 4 ==> d3 == change(s0, i - 4),
            forall|idx: int|
                0 <= idx < ROWS ==> (sold[idx] <==> sale_upto(s0, #[trigger] at_place(idx), i as int) is Some),
            forall|idx: int| 0 <= idx < ROWS ==> sales[idx] == sale(s0, #[trigger] at_place(idx), i as int),
        decreases rounds - i,
    {
        let ghost sold0 = sold@;
        let ghost sales0 = sales@;
        seed = shsb_random(seed);
        let val: u64 = seed % 10;
        d3 = d2;
        d2 = d1;
        d1 = d0;
        d0 = val as i64 - previous as i64;
        assert(d0 == change(s0, i as int));
        if i >= FIRST_STEP {
            let ghost key = window(s0, i as int);
            assert(key == (d0 as int, d1 as int, d2 as int, d3 as int));
            proof {
                lemma_place(key);
            }
            let idx: usize = ((((d0 + 9) * 19 + (d1 + 9)) * 19 + (d2 + 9)) * 19 + (d3 + 9)) as usize;
            assert(idx == place(key));
            if !sold[idx] {
                sold.set(idx, true);
                sales.set(idx, val as u128);
            }
            proof {
                assert forall|other: int| 0 <= other < ROWS implies (sold[other] <==> sale_upto(
                    s0,
                    #[trigger] at_place(other),
                    i + 1,
                ) is Some) && sales[other] == sale(s0, at_place(other), i + 1) by {
                    lemma_at_place(other);
                    let k = at_place(other);
                    assert(sold0[other] <==> sale_upto(s0, k, i as int) is Some);
                    assert(sales0[other] == sale(s0, k, i as int));
                    if other != idx {
                        assert(k != key);
                    }
                }
            }
        } else {
            proof {
                assert forall|other: int| 0 <= other < ROWS implies (sold[other] <==> sale_upto(
                    s0,
                    #[trigger] at_place(other),
                    i + 1,
                ) is Some) && sales[other] == sale(s0, at_place(other), i + 1) by {
                    let k = at_place(other);
                    assert(sold0[other] <==> sale_upto(s0, k, i as int) is Some);
                    assert(sales0[other] == sale(s0, k, i as int));
                }
            }
        }
        previous = val;
        i += 1;
    }
    sales
}

/// Adds two tables place by place. There is no sum where the tables
/// differ in length or an entry would exceed 128 bits.
pub fn merge_sales(a: &Vec<u128>, b: &Vec<u128>) -> (r: Option<Vec<u128>>)
    ensures
        r is Some <==> a.len() == b.len() && forall|i: int| 0 <= i < a.len() ==> a[i] + b[i] <= u128::MAX,
        r is Some ==> r.unwrap().len() == a.len() && forall|i: int|
            0 <= i < a.len() ==> #[trigger] r.unwrap()[i] == a[i] + b[i],
{
    if a.len() != b.len() {
        return None;
    }
    let mut out: Vec<u128> = Vec::new();
    let mut i: usize = 0;
    while i < a.len()
        invariant
            i <= a.len(),
            a.len() == b.len(),
            out.len() == i,
            forall|k: int| 0 <= k < i ==> #[trigger] out[k] == a[k] + b[k],
            forall|k: int| 0 <= k < i ==> a[k] + b[k] <= u128::MAX,
        decreases a.len() - i,
    {
        match a[i].checked_add(b[i]) {
            Some(sum) => out.push(sum),
            None => {
                return None;
            },
        }
        i += 1;
    }
    Some(out)
}

/// The greatest entry of a table, 0 for a table without entries.
pub fn best_total(totals: &Vec<u128>) -> (best: u128)
    ensures
        forall|i: int| 0 <= i < totals.len() ==> totals[i] <= best,
        totals.len() > 0 ==> exists|i: int| 0 <= i < totals.len() && totals[i] == best,
        totals.len() == 0 ==> best == 0,
{
    if totals.len() == 0 {
        return 0;
    }
    let mut best: u128 = totals[0];
    let mut k: usize = 1;
    let ghost mut at: int = 0;
    while k < totals.len()
        invariant
            1 <= k <= totals.len(),
            0 <= at < k,
            totals[at] == best,
            forall|idx: int| 0 <= idx < k ==> totals[idx] <= best,
        decreases totals.len() - k,
    {
        if totals[k] > best {
            best = totals[k];
            proof {
                at = k as int;
            }
        }
        k += 1;
    }
    best
}

/// The most that one row of four changes fetches from all buyers, each of
/// whom sells once, at the price after the first step up to which their
/// last four changes are that row. The changes of the steps before
/// `FIRST_STEP` are not looked at.
pub fn best_price(seeds: &Vec<u64>, rounds: u32) -> (best: u128)
    ensures
        forall|key: Changes| bananas(seeds@, key, rounds as int, seeds.len() as int) <= best,
        exists|key: Changes| small(key) && bananas(seeds@, key, rounds as int, seeds.len() as int) == best,
{
    let mut totals: Vec<u128> = Vec::new();
    let mut k: usize = 0;
    while k < ROWS
        invariant
            k <= ROWS,
            totals.len() == k,
            forall|idx: int| 0 <= idx < k ==> totals[idx] == 0,
        decreases ROWS - k,
    {
        totals.push(0);
        k += 1;
    }
    let mut b: usize = 0;
    while b < seeds.len()
        invariant
            b <= seeds.len(),
            totals.len() == ROWS,
            forall|idx: int|
                0 <= idx < ROWS ==> totals[idx] == bananas(seeds@, #[trigger] at_place(idx), rounds as int, b as int),
            forall|idx: int| 0 <= idx < ROWS ==> totals[idx] <= 9 * b,
        decreases seeds.len() - b,
    {
        let sales = buyer_sales(seeds[b], rounds);
        proof {
            assert forall|i: int| 0 <= i < ROWS implies totals[i] + sales[i] <= 9 * (b + 1) by {
                lemma_sale_is_digit(seeds@[b as int], at_place(i), rounds as int);
                assert(sales[i] == sale(seeds@[b as int], at_place(i), rounds as int));
            }
        }
        let ghost before = totals@;
        match merge_sales(&totals, &sales) {
            Some(sum) => {
                totals = sum;
            },
            None => {
                assert(false);
            },
        }
        proof {
            assert forall|idx: int| 0 <= idx < ROWS implies totals[idx] == bananas(
                seeds@,
                #[trigger] at_place(idx),
                rounds as int,
                b + 1,
            ) by {
                assert(totals[idx] == before[idx] + sales[idx]);
                assert(before[idx] == bananas(seeds@, at_place(idx), rounds as int, b as int));
            }
            assert forall|idx: int| 0 <= idx < ROWS implies #[trigger] totals[idx] <= 9 * (b + 1) by {
                assert(totals[idx] == before[idx] + sales[idx]);
            }
        }
        b += 1;
    }
    let best = best_total(&totals);
    proof {
        let n = seeds.len() as int;
        let at = choose|i: int| 0 <= i < totals.len() && totals[i] == best;
        lemma_at_place(at);
        assert(bananas(seeds@, at_place(at), rounds as int, n) == best);
        assert forall|key: Changes| bananas(seeds@, key, rounds as int, n) <= best by {
            if small(key) {
                let idx = place(key);
                lemma_place(key);
                assert(totals[idx] == bananas(seeds@, at_place(idx), rounds as int, n));
                assert(totals[idx] <= best);
            } else {
                lemma_no_bananas(seeds@, key, rounds as int, n);
            }
        }
    }
    best
}

} // verus!
