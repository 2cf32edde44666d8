//! Designs to be laid out from towels with given patterns.

use vstd::prelude::*;
use crate::text::views;

verus! {

/// One of the patterns is the part of the design from `j` up to `i`.
pub open spec fn piece(patterns: Seq<Seq<char>>, design: Seq<char>, j: int, i: int) -> bool {
    0 <= j <= i <= design.len() && patterns.contains(design.subrange(j, i))
}

/// The first `i` characters of the design can be laid out from the
/// patterns.
pub open spec fn possible(patterns: Seq<Seq<char>>, design: Seq<char>, i: int) -> bool
    decreases i,
{
    if i <= 0 {
        i == 0
    } else {
        exists|j: int| 0 <= j < i && #[trigger] piece(patterns, design, j, i) && possible(patterns, design, j)
    }
}

/// In how many ways the first `i` characters of the design can be laid out
/// with the last piece beginning before `bound`.
pub open spec fn ways_ending(patterns: Seq<Seq<char>>, design: Seq<char>, i: int, bound: int) -> nat
    decreases i, bound,
{
    if i <= 0 || bound <= 0 {
        0
    } else if bound > i {
        ways_ending(patterns, design, i, i)
    } else {
        ways_ending(patterns, design, i, bound - 1) + if piece(patterns, design, bound - 1, i) {
            ways(patterns, design, bound - 1)
        } else {
            0
        }
    }
}

/// In how many ways the first `i` characters of the design can be laid out
/// from the patterns; patterns that are equal count once.
pub open spec fn ways(patterns: Seq<Seq<char>>, design: Seq<char>, i: int) -> nat
    decreases i, i + 1,
{
    if i < 0 {
        0
    } else if i == 0 {
        1
    } else {
        ways_ending(patterns, design, i, i)
    }
}

/// Whether the pattern is the part of the design from `j` up to `i`.
fn is_piece(pattern: &Vec<char>, design: &Vec<char>, j: usize, i: usize) -> (b: bool)
    requires
        j <= i <= design.len(),
    ensures
        b == (pattern@ == design@.subrange(j as int, i as int)),
{
    if pattern.len() != i - j {
        return false;
    }
    let mut k: usize = 0;
    while k < pattern.len()
        invariant
            k <= pattern.len(),
            pattern.len() == i - j,
            j <= i <= design.len(),
            forall|n: int| 0 <= n < k ==> pattern@[n] == design@[j + n],
        decreases pattern.len() - k,
    {
        if pattern[k] != design[j + k] {
            assert(design@.subrange(j as int, i as int)[k as int] != pattern@[k as int]);
            return false;
        }
        k += 1;
    }
    assert(pattern@ =~= design@.subrange(j as int, i as int));
    true
}

/// Whether one of the patterns is the part of the design from `j` up to
/// `i`.
pub fn has_piece(patterns: &Vec<Vec<char>>, design: &Vec<char>, j: usize, i: usize) -> (b: bool)
    requires
        j <= i <= design.len(),
    ensures
        b == piece(views(patterns@), design@, j as int, i as int),
{
    let ghost all = views(patterns@);
    let ghost part = design@.subrange(j as int, i as int);
    let mut k: usize = 0;
    while k < patterns.len()
        invariant
            k <= patterns.len(),
            j <= i <= design.len(),
            all == views(patterns@),
            part == design@.subrange(j as int, i as int),
            forall|n: int| 0 <= n < k ==> all[n] != part,
        decreases patterns.len() - k,
    {
        assert(all[k as int] == patterns@[k as int]@);
        if is_piece(&patterns[k], design, j, i) {
            assert(all.contains(part));
            return true;
        }
        k += 1;
    }
    assert(!all.contains(part));
    false
}

/// Whether the whole design can be laid out from the patterns.
pub fn is_possible(patterns: &Vec<Vec<char>>, design: &Vec<char>) -> (b: bool)
    ensures
        b == possible(views(patterns@), design@, design.len() as int),
{
    let ghost all = views(patterns@);
    let n = design.len();
    let mut dp: Vec<bool> = Vec::new();
    dp.push(true);
    let mut i: usize = 1;
    while i <= n
        invariant
            1 <= i <= n + 1,
            n == design.len(),
            all == views(patterns@),
            dp.len() == i,
            forall|k: int| 0 <= k < i ==> #[trigger] dp@[k] == possible(all, design@, k),
        decreases n + 1 - i,
    {
        let mut found = false;
        let mut j: usize = 0;
        while j < i && !found
            invariant
                j <= i <= n,
                n == design.len(),
                all == views(patterns@),
                dp.len() == i,
                forall|k: int| 0 <= k < i ==> #[trigger] dp@[k] == possible(all, design@, k),
                found ==> possible(all, design@, i as int),
                !found ==> forall|k: int|
                    0 <= k < j ==> !(#[trigger] piece(all, design@, k, i as int) && possible(
                        all,
                        design@,
                        k,
                    )),
            decreases i - j + (if found { 0int } else { 1int }),
        {
            if dp[j] && has_piece(patterns, design, j, i) {
                found = true;
                assert(piece(all, design@, j as int, i as int) && possible(all, design@, j as int));
            } else {
                j += 1;
            }
        }
        proof {
            if !found {
                assert(!possible(all, design@, i as int));
            }
        }
        dp.push(found);
        assert(dp.len() == i + 1);
        i += 1;
    }
    dp[n]
}

/// How many of the designs can be laid out.
pub open spec fn possible_count(patterns: Seq<Seq<char>>, designs: Seq<Seq<char>>) -> nat
    decreases designs.len(),
{
    if designs.len() == 0 {
        0
    } else {
        possible_count(patterns, designs.drop_last()) + if possible(
            patterns,
            designs.last(),
            designs.last().len() as int,
        ) {
            1nat
        } else {
            0nat
        }
    }
}

/// Counts the designs that can be laid out from the patterns.
pub fn count_possible_designs(towel_patterns: &Vec<Vec<char>>, designs: &Vec<Vec<char>>) -> (n: usize)
    ensures
        n == possible_count(views(towel_patterns@), views(designs@)),
{
    let ghost all = views(designs@);
    let mut possible_count: usize = 0;
    let mut i: usize = 0;
    while i < designs.len()
        invariant
            i <= designs.len(),
            all == views(designs@),
            possible_count == self::possible_count(views(towel_patterns@), all.take(i as int)),
            possible_count <= i,
        decreases designs.len() - i,
    {
        proof {
            assert(all.take(i + 1).drop_last() =~= all.take(i as int));
            assert(all.take(i + 1).last() == designs@[i as int]@);
        }
        if is_possible(towel_patterns, &designs[i]) {
            possible_count += 1;
        }
        i += 1;
    }
    assert(all.take(designs.len() as int) =~= all);
    possible_count
}

/// In how many ways the whole design can be laid out from the patterns;
/// nothing if the number exceeds 128 bits.
pub fn arrangements(patterns: &Vec<Vec<char>>, design: &Vec<char>) -> (r: Option<u128>)
    ensures
        match r {
            Some(w) => w == ways(views(patterns@), design@, design.len() as int),
            None => exists|k: int|
                0 <= k <= design.len() && #[trigger] ways(views(patterns@), design@, k) > u128::MAX,
        },
{
    let ghost all = views(patterns@);
    let n = design.len();
    let mut dp: Vec<u128> = Vec::new();
    dp.push(1);
    let mut i: usize = 1;
    while i <= n
        invariant
            1 <= i <= n + 1,
            n == design.len(),
            all == views(patterns@),
            dp.len() == i,
            forall|k: int| 0 <= k < i ==> #[trigger] dp@[k] == ways(all, design@, k),
        decreases n + 1 - i,
    {
        let mut total: u128 = 0;
        let mut j: usize = 0;
        while j < i
            invariant
                j <= i <= n,
                n == design.len(),
                all == views(patterns@),
                dp.len() == i,
                forall|k: int| 0 <= k < i ==> #[trigger] dp@[k] == ways(all, design@, k),
                total == ways_ending(all, design@, i as int, j as int),
            decreases i - j,
        {
            if has_piece(patterns, design, j, i) {
                match total.checked_add(dp[j]) {
                    Some(t) => {
                        total = t;
                    },
                    None => {
                        proof {
                            lemma_ways_ending_grows(all, design@, i as int, j + 1, i as int);
                            assert(ways(all, design@, i as int) > u128::MAX);
                        }
                        return None;
                    },
                }
            }
            j += 1;
        }
        dp.push(total);
        assert(dp.len() == i + 1);
        i += 1;
    }
    Some(dp[n])
}

/// The count of ways grows with the bound.
pub proof fn lemma_ways_ending_grows(
    patterns: Seq<Seq<char>>,
    design: Seq<char>,
    i: int,
    a: int,
    b: int,
)
    requires
        0 <= a <= b <= i,
    ensures
        ways_ending(patterns, design, i, a) <= ways_ending(patterns, design, i, b),
    decreases b - a,
{
    if a < b {
        lemma_ways_ending_grows(patterns, design, i, a, b - 1);
    }
}

/// The sum of the numbers of ways in which the designs can be laid out.
pub open spec fn total_ways(patterns: Seq<Seq<char>>, designs: Seq<Seq<char>>) -> nat
    decreases designs.len(),
{
    if designs.len() == 0 {
        0
    } else {
        total_ways(patterns, designs.drop_last()) + ways(
            patterns,
            designs.last(),
            designs.last().len() as int,
        )
    }
}

/// A count, for some design, exceeds 128 bits.
pub open spec fn too_many(patterns: Seq<Seq<char>>, designs: Seq<Seq<char>>) -> bool {
    ||| exists|d: int, k: int|
        0 <= d < designs.len() && 0 <= k <= designs[d].len() && #[trigger] ways(
            patterns,
            designs[d],
            k,
        ) > u128::MAX
    ||| exists|d: int| 0 <= d <= designs.len() && #[trigger] total_ways(patterns, designs.take(d)) > u128::MAX
}

/// Adds up the numbers of ways in which the designs can be laid out from
/// the patterns; nothing if a number on the way exceeds 128 bits.
pub fn count_arrangements(towel_patterns: &Vec<Vec<char>>, designs: &Vec<Vec<char>>) -> (r: Option<u128>)
    ensures
        match r {
            Some(n) => n == total_ways(views(towel_patterns@), views(designs@)),
            None => too_many(views(towel_patterns@), views(designs@)),
        },
{
    let ghost all = views(designs@);
    let ghost patterns = views(towel_patterns@);
    let mut total_count: u128 = 0;
    let mut i: usize = 0;
    while i < designs.len()
        invariant
            i <= designs.len(),
            all == views(designs@),
            patterns == views(towel_patterns@),
            total_count == total_ways(patterns, all.take(i as int)),
        decreases designs.len() - i,
    {
        proof {
            assert(all.take(i + 1).drop_last() =~= all.take(i as int));
            assert(all.take(i + 1).last() == designs@[i as int]@);
            assert(all[i as int] == designs@[i as int]@);
        }
        let w = match arrangements(towel_patterns, &designs[i]) {
            Some(w) => w,
            None => {
                proof {
                    let k = choose|k: int|
                        0 <= k <= designs@[i as int]@.len() && #[trigger] ways(
                            patterns,
                            designs@[i as int]@,
                            k,
                        ) > u128::MAX;
                    assert(ways(patterns, all[i as int], k) > u128::MAX);
                }
                return None;
            },
        };
        match total_count.checked_add(w) {
            Some(t) => {
                total_count = t;
            },
            None => {
                assert(total_ways(patterns, all.take(i + 1)) > u128::MAX);
                return None;
            },
        }
        i += 1;
    }
    assert(all.take(designs.len() as int) =~= all);
    Some(total_count)
}

/// The mark between the patterns and the designs: an empty line.
pub open spec fn section_mark() -> Seq<char> {
    seq!['\n', '\n']
}

/// The mark between two patterns.
pub open spec fn pattern_mark() -> Seq<char> {
    seq![',', ' ']
}

/// The patterns and the designs that a text holds: the patterns stand
/// before the first empty line, with a comma and a blank between them,
/// the designs behind it up to the next empty line, a line each. There
/// are none where the text has no empty line.
pub open spec fn towels_of(input: Seq<char>) -> Option<(Seq<Seq<char>>, Seq<Seq<char>>)> {
    let sections = crate::text::pieces(input, section_mark());
    if sections.len() >= 2 {
        Some((crate::text::pieces(sections[0], pattern_mark()), crate::text::lines_of(sections[1])))
    } else {
        None
    }
}

/// Reads the patterns and the designs from text.
pub fn parse_towels(input: &str) -> (r: Option<(Vec<Vec<char>>, Vec<Vec<char>>)>)
    ensures
        match r {
            Some((patterns, designs)) => towels_of(input@) == Some(
                (crate::text::views(patterns@), crate::text::views(designs@)),
            ),
            None => towels_of(input@) is None,
        },
{
    let text = crate::text::chars_of(input);
    let mut gap: Vec<char> = Vec::new();
    gap.push('\n');
    gap.push('\n');
    assert(gap@ =~= section_mark());
    let mut comma: Vec<char> = Vec::new();
    comma.push(',');
    comma.push(' ');
    assert(comma@ =~= pattern_mark());
    let sections = crate::text::split_at_each(&text, &gap);
    if sections.len() < 2 {
        return None;
    }
    let ghost secs = crate::text::views(sections@);
    assert(secs[0] == sections@[0]@ && secs[1] == sections@[1]@);
    let patterns = crate::text::split_at_each(&sections[0], &comma);
    let designs = crate::text::split_lines(&sections[1]);
    Some((patterns, designs))
}

} // verus!
