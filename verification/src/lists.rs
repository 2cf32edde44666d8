//! Two lists of numbers and how alike they are.

use vstd::prelude::*;

verus! {

/// How often `v` stands in `s`.
pub open spec fn count_in(s: Seq<i32>, v: i32) -> nat
    decreases s.len(),
{
    if s.len() == 0 {
        0
    } else {
        count_in(s.drop_last(), v) + if s.last() == v {
            1nat
        } else {
            0nat
        }
    }
}

/// The sum, over the numbers on the left, of each number times how often
/// it stands on the right.
pub open spec fn similarity(left: Seq<i32>, right: Seq<i32>) -> int
    decreases left.len(),
{
    if left.len() == 0 {
        0
    } else {
        similarity(left.drop_last(), right) + left.last() * count_in(right, left.last())
    }
}

pub proof fn lemma_count_bound(s: Seq<i32>, v: i32)
    ensures
        count_in(s, v) <= s.len(),
    decreases s.len(),
{
    if s.len() > 0 {
        lemma_count_bound(s.drop_last(), v);
    }
}

pub proof fn lemma_similarity_bound(left: Seq<i32>, right: Seq<i32>)
    ensures
        -0x8000_0000 * right.len() * left.len() <= similarity(left, right) <= 0x8000_0000
            * right.len() * left.len(),
    decreases left.len(),
{
    if left.len() > 0 {
        lemma_similarity_bound(left.drop_last(), right);
        lemma_count_bound(right, left.last());
        let v = left.last() as int;
        let c = count_in(right, left.last()) as int;
        let r = right.len() as int;
        let n = left.len() as int;
        assert(-0x8000_0000 * r <= v * c <= 0x8000_0000 * r) by (nonlinear_arith)
            requires
                -0x8000_0000 <= v <= 0x8000_0000,
                0 <= c <= r,
        ;
        assert(0x8000_0000 * r * n == 0x8000_0000 * r * (n - 1) + 0x8000_0000 * r)
            by (nonlinear_arith);
        assert(-0x8000_0000 * r * n == -0x8000_0000 * r * (n - 1) - 0x8000_0000 * r)
            by (nonlinear_arith);
    }
}

/// How often `v` stands in the list.
pub fn occurrences(list: &Vec<i32>, v: i32) -> (n: usize)
    ensures
        n == count_in(list@, v),
{
    let mut n: usize = 0;
    let mut i: usize = 0;
    while i < list.len()
        invariant
            i <= list.len(),
            n == count_in(list@.take(i as int), v),
            n <= i,
        decreases list.len() - i,
    {
        assert(list@.take(i + 1).drop_last() =~= list@.take(i as int));
        if list[i] == v {
            n += 1;
        }
        i += 1;
    }
    assert(list@.take(list.len() as int) =~= list@);
    n
}

/// The similarity score of two lists, neither longer than 4294967295
/// numbers.
pub fn calculate_similarity_score(left: &Vec<i32>, right: &Vec<i32>) -> (score: i128)
    requires
        left.len() <= 0xffff_ffff,
        right.len() <= 0xffff_ffff,
    ensures
        score == similarity(left@, right@),
{
    let mut similarity_score: i128 = 0;
    let mut i: usize = 0;
    while i < left.len()
        invariant
            i <= left.len() <= 0xffff_ffff,
            right.len() <= 0xffff_ffff,
            similarity_score == similarity(left@.take(i as int), right@),
        decreases left.len() - i,
    {
        let num = left[i];
        let count = occurrences(right, num);
        proof {
            assert(left@.take(i + 1).drop_last() =~= left@.take(i as int));
            lemma_similarity_bound(left@.take(i as int), right@);
            lemma_count_bound(right@, num);
            let r = right.len() as int;
            assert(0x8000_0000 * r * i <= 0x8000_0000 * 0xffff_ffff * 0xffff_ffff) by (nonlinear_arith)
                requires
                    0 <= r <= 0xffff_ffff,
                    0 <= i <= 0xffff_ffff,
            ;
            assert(-0x8000_0000 * r * i >= -0x8000_0000 * 0xffff_ffff * 0xffff_ffff)
                by (nonlinear_arith)
                requires
                    0 <= r <= 0xffff_ffff,
                    0 <= i <= 0xffff_ffff,
            ;
            assert(-0x8000_0000 * 0xffff_ffff <= num * count <= 0x8000_0000 * 0xffff_ffff)
                by (nonlinear_arith)
                requires
                    -0x8000_0000 <= num <= 0x8000_0000,
                    0 <= count <= 0xffff_ffff,
            ;
        }
        similarity_score += num as i128 * count as i128;
        i += 1;
    }
    assert(left@.take(left.len() as int) =~= left@);
    similarity_score
}


/// The numbers stand in rising order.
pub open spec fn rising(s: Seq<i32>) -> bool {
    forall|i: int, j: int| 0 <= i < j < s.len() ==> #[trigger] s[i] <= #[trigger] s[j]
}

/// Exchanging two numbers keeps what numbers there are.
pub proof fn lemma_swap_keeps(s: Seq<i32>, i: int, j: int)
    requires
        0 <= i < s.len(),
        0 <= j < s.len(),
    ensures
        s.update(i, s[j]).update(j, s[i]).to_multiset() == s.to_multiset(),
{
    broadcast use vstd::seq_lib::group_to_multiset_ensures;

    let s1 = s.update(i, s[j]);
    let s2 = s1.update(j, s[i]);
    if i == j {
        assert(s2 =~= s);
    } else {
        assert(s1 =~= s.remove(i).insert(i, s[j]));
        assert(s2 =~= s1.remove(j).insert(j, s[i]));
        vstd::seq_lib::to_multiset_remove(s, i);
        vstd::seq_lib::to_multiset_insert(s.remove(i), i, s[j]);
        vstd::seq_lib::to_multiset_remove(s1, j);
        vstd::seq_lib::to_multiset_insert(s1.remove(j), j, s[i]);
        assert(s.to_multiset().count(s[i]) > 0);
        assert(s.to_multiset().count(s[j]) > 0);
        assert(s2.to_multiset() =~= s.to_multiset());
    }
}

/// Sorts the numbers into rising order.
pub fn sort_numbers(v: &mut Vec<i32>)
    ensures
        rising(final(v)@),
        final(v)@.to_multiset() == old(v)@.to_multiset(),
        final(v)@.len() == old(v)@.len(),
{
    let n = v.len();
    let mut i: usize = 1;
    while i < n
        invariant
            n == v.len(),
            1 <= i || n == 0,
            v@.to_multiset() == old(v)@.to_multiset(),
            forall|a: int, b: int| 0 <= a < b < i && b < n ==> #[trigger] v@[a] <= #[trigger] v@[b],
        decreases n - i,
    {
        let mut j: usize = i;
        while j > 0 && v[j - 1] > v[j]
            invariant
                j <= i < n,
                n == v.len(),
                v@.to_multiset() == old(v)@.to_multiset(),
                forall|a: int, b: int| 0 <= a < b <= i && a != j && b != j ==> #[trigger] v@[a] <= #[trigger] v@[b],
                forall|b: int| j < b <= i ==> v@[j as int] <= #[trigger] v@[b],
            decreases j,
        {
            let x = v[j - 1];
            let y = v[j];
            proof {
                lemma_swap_keeps(v@, j - 1, j as int);
            }
            v.set(j - 1, y);
            v.set(j, x);
            j -= 1;
        }
        i += 1;
    }
}

/// The sum of the gaps between the first `n` numbers of two lists, place
/// by place.
pub open spec fn gaps(a: Seq<i32>, b: Seq<i32>, n: int) -> nat
    decreases n,
{
    if n <= 0 {
        0
    } else {
        gaps(a, b, n - 1) + (if a[n - 1] >= b[n - 1] {
            a[n - 1] - b[n - 1]
        } else {
            b[n - 1] - a[n - 1]
        }) as nat
    }
}

pub proof fn lemma_gaps_bound(a: Seq<i32>, b: Seq<i32>, n: int)
    requires
        0 <= n,
    ensures
        gaps(a, b, n) <= n * 0x1_0000_0000,
    decreases n,
{
    if n > 0 {
        lemma_gaps_bound(a, b, n - 1);
    }
}

/// The sum of the gaps between two lists, place by place, as far as the
/// shorter list goes.
pub open spec fn distance(a: Seq<i32>, b: Seq<i32>) -> nat {
    gaps(
        a,
        b,
        if a.len() <= b.len() {
            a.len() as int
        } else {
            b.len() as int
        },
    )
}

/// The total distance of two lists: both are sorted, and the gaps between
/// the numbers that then stand in the same place are added up, as far as
/// the shorter list goes.
pub fn total_distance(left: &Vec<i32>, right: &Vec<i32>) -> (total: u128)
    ensures
        exists|a: Seq<i32>, b: Seq<i32>|
            #![trigger distance(a, b)]
            rising(a) && rising(b) && a.to_multiset() == left@.to_multiset() && b.to_multiset()
                == right@.to_multiset() && total == distance(a, b),
{
    let mut arr1 = left.clone();
    let mut arr2 = right.clone();
    assert(arr1@ =~= left@);
    assert(arr2@ =~= right@);
    sort_numbers(&mut arr1);
    sort_numbers(&mut arr2);
    let n = if arr1.len() <= arr2.len() {
        arr1.len()
    } else {
        arr2.len()
    };
    let mut total: u128 = 0;
    let mut i: usize = 0;
    while i < n
        invariant
            i <= n,
            n <= arr1.len(),
            n <= arr2.len(),
            total == gaps(arr1@, arr2@, i as int),
        decreases n - i,
    {
        proof {
            lemma_gaps_bound(arr1@, arr2@, i as int);
            assert(i * 0x1_0000_0000 <= 0xffff_ffff_ffff_ffff * 0x1_0000_0000) by (nonlinear_arith)
                requires
                    i <= 0xffff_ffff_ffff_ffff,
            ;
        }
        let x = arr1[i] as i64;
        let y = arr2[i] as i64;
        let gap = if x >= y {
            x - y
        } else {
            y - x
        };
        total += gap as u128;
        i += 1;
    }
    assert(total == distance(arr1@, arr2@));
    total
}

/// The two numbers of a line: the line has two words, each a number that
/// 32 bits hold.
pub open spec fn pair_of(line: Seq<char>) -> Option<(i32, i32)> {
    let words = crate::text::fields_of(line);
    match (
        crate::text::signed_of(words[0], i32::MIN as int, i32::MAX as int),
        crate::text::signed_of(words[1], i32::MIN as int, i32::MAX as int),
    ) {
        (Some(a), Some(b)) => Some((a as i32, b as i32)),
        _ => None,
    }
}

/// The line has two words.
pub open spec fn is_pair(line: Seq<char>) -> bool {
    crate::text::fields_of(line).len() == 2
}

/// The two lists that the first `n` lines hold: the first and the second
/// number of every line of two words, in order. Lines of fewer or more
/// words are passed over. There are no lists where a word of such a line
/// is no number.
pub open spec fn lists_of(lines: Seq<Seq<char>>, n: int) -> Option<(Seq<i32>, Seq<i32>)>
    decreases n,
{
    if n <= 0 {
        Some((Seq::empty(), Seq::empty()))
    } else {
        match lists_of(lines, n - 1) {
            None => None,
            Some((left, right)) => if is_pair(lines[n - 1]) {
                match pair_of(lines[n - 1]) {
                    Some((a, b)) => Some((left.push(a), right.push(b))),
                    None => None,
                }
            } else {
                Some((left, right))
            },
        }
    }
}

/// Lists that cannot be read from some lines cannot be read from more.
pub proof fn lemma_lists_stuck(lines: Seq<Seq<char>>, a: int, b: int)
    requires
        a <= b,
        lists_of(lines, a) is None,
    ensures
        lists_of(lines, b) is None,
    decreases b - a,
{
    if a < b {
        lemma_lists_stuck(lines, a, b - 1);
    }
}

/// Reads the two lists from text, a line for each pair of numbers.
pub fn parse_lists(input: &str) -> (r: Option<(Vec<i32>, Vec<i32>)>)
    ensures
        match r {
            Some((left, right)) => lists_of(
                crate::text::lines_of(input@),
                crate::text::lines_of(input@).len() as int,
            ) == Some((left@, right@)),
            None => lists_of(crate::text::lines_of(input@), crate::text::lines_of(input@).len() as int)
                is None,
        },
{
    let text = crate::text::chars_of(input);
    let lines = crate::text::split_lines(&text);
    let ghost all = crate::text::lines_of(input@);
    let mut left: Vec<i32> = Vec::new();
    let mut right: Vec<i32> = Vec::new();
    let mut k: usize = 0;
    while k < lines.len()
        invariant
            k <= lines.len(),
            all == crate::text::views(lines@),
            all == crate::text::lines_of(input@),
            lists_of(all, k as int) == Some((left@, right@)),
        decreases lines.len() - k,
    {
        assert(all[k as int] == lines@[k as int]@);
        let words = crate::text::split_whitespace(&lines[k]);
        if words.len() == 2 {
            let ghost fields = crate::text::views(words@);
            assert(fields[0] == words@[0]@ && fields[1] == words@[1]@);
            let a = crate::text::parse_signed(&words[0], i32::MIN as i128, i32::MAX as i128);
            let b = crate::text::parse_signed(&words[1], i32::MIN as i128, i32::MAX as i128);
            match (a, b) {
                (Some(a), Some(b)) => {
                    left.push(a as i32);
                    right.push(b as i32);
                },
                _ => {
                    proof {
                        assert(lists_of(all, k + 1) is None);
                        lemma_lists_stuck(all, k + 1, lines.len() as int);
                    }
                    return None;
                },
            }
        }
        k += 1;
    }
    Some((left, right))
}

} // verus!
