//! Corrupted memory in which multiplications are hidden: `mul(X,Y)` with
//! numbers of one to three digits.

use vstd::prelude::*;
use crate::text::{
    chars_of, lemma_views_push, parse_unsigned, pieces, split_at_each, string_of, unsigned_of, views,
};

verus! {

/// What the regular expression `pattern` captures in `haystack`: for every
/// match from left to right, without overlap, its groups in the order of
/// their opening parentheses, the whole match first; a group that took no
/// part in the match has no text. There is nothing if the pattern is no
/// regular expression or too large a one.
pub uninterp spec fn regex_captures(pattern: Seq<char>, haystack: Seq<char>) -> Option<
    Seq<Seq<Option<Seq<char>>>>,
>;

/// The texts of the groups of one match.
pub open spec fn groups_view(groups: Seq<Option<Vec<char>>>) -> Seq<Option<Seq<char>>> {
    Seq::new(
        groups.len(),
        |i: int|
            match groups[i] {
                Some(g) => Some(g@),
                None => None,
            },
    )
}

/// The texts of the groups of all matches.
pub open spec fn captures_view(captures: Seq<Vec<Option<Vec<char>>>>) -> Seq<Seq<Option<Seq<char>>>> {
    Seq::new(captures.len(), |i: int| groups_view(captures[i]@))
}

/// The groups of all matches of a regular expression in a text, by
/// `regex::Regex::new`, `Regex::captures_iter` and `Captures::iter`: the
/// result is what `regex_captures` names, and nothing else is claimed of
/// it.
#[verifier::external_body]
fn captures_of(pattern: &str, haystack: &str) -> (r: Option<Vec<Vec<Option<Vec<char>>>>>)
    ensures
        match r {
            Some(c) => regex_captures(pattern@, haystack@) == Some(captures_view(c@)),
            None => regex_captures(pattern@, haystack@) is None,
        },
{
    match regex::Regex::new(pattern) {
        Err(_) => None,
        Ok(re) => Some(
            re.captures_iter(haystack).map(
                |c| c.iter().map(|g| g.map(|m| m.as_str().chars().collect())).collect(),
            ).collect(),
        ),
    }
}

/// The product that one match shows: that of the numbers in its second and
/// third group, each at most 2147483647.
pub open spec fn product_of(groups: Seq<Option<Seq<char>>>) -> Option<nat> {
    if groups.len() < 3 {
        None
    } else {
        match (groups[1], groups[2]) {
            (Some(a), Some(b)) => match (
                unsigned_of(a, i32::MAX as nat),
                unsigned_of(b, i32::MAX as nat),
            ) {
                (Some(x), Some(y)) => Some(x * y),
                _ => None,
            },
            _ => None,
        }
    }
}

/// The sum of the products that the matches show; nothing if a match shows
/// none.
pub open spec fn products_sum(captures: Seq<Seq<Option<Seq<char>>>>) -> Option<nat>
    decreases captures.len(),
{
    if captures.len() == 0 {
        Some(0)
    } else {
        match (products_sum(captures.drop_last()), product_of(captures.last())) {
            (Some(s), Some(p)) => Some(s + p),
            _ => None,
        }
    }
}

pub proof fn lemma_products_grow(captures: Seq<Seq<Option<Seq<char>>>>, n: int)
    requires
        0 <= n <= captures.len(),
    ensures
        products_sum(captures.take(n)) is None ==> products_sum(captures) is None,
        products_sum(captures.take(n)) is Some ==> products_sum(captures.take(n)).unwrap() <= n
            * 0x4000_0000_0000_0000,
    decreases captures.len() - n,
{
    if n < captures.len() {
        lemma_products_grow(captures, n + 1);
        assert(captures.take(n + 1).drop_last() =~= captures.take(n));
    } else {
        assert(captures.take(n) =~= captures);
    }
    lemma_products_bound(captures.take(n));
}

pub proof fn lemma_products_bound(captures: Seq<Seq<Option<Seq<char>>>>)
    ensures
        products_sum(captures) is Some ==> products_sum(captures).unwrap() <= captures.len()
            * 0x4000_0000_0000_0000,
    decreases captures.len(),
{
    if captures.len() > 0 {
        lemma_products_bound(captures.drop_last());
        if product_of(captures.last()) is Some {
            let g = captures.last();
            let x = unsigned_of(g[1].unwrap(), i32::MAX as nat).unwrap();
            let y = unsigned_of(g[2].unwrap(), i32::MAX as nat).unwrap();
            assert(x * y <= 0x4000_0000_0000_0000) by (nonlinear_arith)
                requires
                    x <= 0x7fff_ffff,
                    y <= 0x7fff_ffff,
            ;
        }
        assert(captures.len() * 0x4000_0000_0000_0000 == (captures.len() - 1) * 0x4000_0000_0000_0000
            + 0x4000_0000_0000_0000) by (nonlinear_arith);
    }
}

/// The product that one match shows.
pub fn product(groups: &Vec<Option<Vec<char>>>) -> (r: Option<u128>)
    ensures
        match r {
            Some(p) => product_of(groups_view(groups@)) == Some(p as nat) && p <= 0x4000_0000_0000_0000,
            None => product_of(groups_view(groups@)) is None,
        },
{
    if groups.len() < 3 {
        return None;
    }
    let a = match &groups[1] {
        Some(a) => a,
        None => {
            return None;
        },
    };
    let b = match &groups[2] {
        Some(b) => b,
        None => {
            return None;
        },
    };
    match (parse_unsigned(a, i32::MAX as u128), parse_unsigned(b, i32::MAX as u128)) {
        (Some(x), Some(y)) => {
            assert(x * y <= 0x4000_0000_0000_0000) by (nonlinear_arith)
                requires
                    x <= 0x7fff_ffff,
                    y <= 0x7fff_ffff,
            ;
            Some(x * y)
        },
        _ => None,
    }
}

/// Adds up the products that the matches show.
pub fn sum_products(captures: &Vec<Vec<Option<Vec<char>>>>) -> (r: Option<u128>)
    ensures
        match r {
            Some(s) => products_sum(captures_view(captures@)) == Some(s as nat),
            None => products_sum(captures_view(captures@)) is None,
        },
{
    let ghost all = captures_view(captures@);
    let mut sum: u128 = 0;
    let mut i: usize = 0;
    while i < captures.len()
        invariant
            i <= captures.len(),
            all == captures_view(captures@),
            products_sum(all.take(i as int)) == Some(sum as nat),
        decreases captures.len() - i,
    {
        proof {
            assert(all.take(i + 1).drop_last() =~= all.take(i as int));
            assert(all.take(i + 1).last() == groups_view(captures@[i as int]@));
            lemma_products_grow(all, i + 1);
            lemma_products_grow(all, i as int);
            assert(i * 0x4000_0000_0000_0000 <= 0xffff_ffff_ffff_ffff * 0x4000_0000_0000_0000)
                by (nonlinear_arith)
                requires
                    i <= 0xffff_ffff_ffff_ffff,
            ;
        }
        match product(&captures[i]) {
            Some(p) => {
                sum += p;
            },
            None => {
                assert(products_sum(all.take(i + 1)) is None);
                return None;
            },
        }
        i += 1;
    }
    assert(all.take(captures.len() as int) =~= all);
    Some(sum)
}

/// The regular expression of a multiplication: `mul(`, a number of one to
/// three digits, a comma, another such number, `)`.
pub open spec fn mul_pattern() -> Seq<char> {
    "mul\\((\\d{1,3}),(\\d{1,3})\\)"@
}

/// What the multiplications hidden in a text add up to.
pub open spec fn hidden_sum(memory: Seq<char>) -> Option<nat> {
    match regex_captures(mul_pattern(), memory) {
        Some(c) => products_sum(c),
        None => None,
    }
}

/// Adds up the products of all multiplications hidden in a text. There is
/// no sum where a number is written in digits other than `0` to `9`.
pub fn sum_valid_multiplications(memory: &str) -> (r: Option<u128>)
    ensures
        match r {
            Some(s) => hidden_sum(memory@) == Some(s as nat),
            None => hidden_sum(memory@) is None,
        },
{
    match captures_of("mul\\((\\d{1,3}),(\\d{1,3})\\)", memory) {
        Some(c) => sum_products(&c),
        None => None,
    }
}

/// The product that one match shows, where its two numbers and their
/// product are no greater than `limit`.
pub open spec fn product_within(groups: Seq<Option<Seq<char>>>, limit: nat) -> Option<nat> {
    if groups.len() < 3 {
        None
    } else {
        match (groups[1], groups[2]) {
            (Some(a), Some(b)) => match (unsigned_of(a, limit), unsigned_of(b, limit)) {
                (Some(x), Some(y)) => if x * y <= limit {
                    Some(x * y)
                } else {
                    None
                },
                _ => None,
            },
            _ => None,
        }
    }
}

/// The sum of the products that the first `n` matches show; nothing if
/// one of them shows none.
pub open spec fn sum_within(captures: Seq<Seq<Option<Seq<char>>>>, limit: nat, n: int) -> Option<nat>
    decreases n,
{
    if n <= 0 {
        Some(0)
    } else {
        match (sum_within(captures, limit, n - 1), product_within(captures[n - 1], limit)) {
            (Some(s), Some(p)) => Some(s + p),
            _ => None,
        }
    }
}

/// A sum of products fails for good, and is at most the limit for each of
/// them.
pub proof fn lemma_sum_within(captures: Seq<Seq<Option<Seq<char>>>>, limit: nat, n: int, m: int)
    requires
        0 <= n <= m,
    ensures
        sum_within(captures, limit, n) is None ==> sum_within(captures, limit, m) is None,
        sum_within(captures, limit, n) is Some ==> sum_within(captures, limit, n).unwrap() <= n * limit,
    decreases m,
{
    if n < m {
        lemma_sum_within(captures, limit, n, m - 1);
    }
    if n > 0 {
        lemma_sum_within(captures, limit, n - 1, n - 1);
        assert(n * limit == (n - 1) * limit + limit) by (nonlinear_arith);
    }
}

/// The product that one match shows, within a limit.
pub fn bounded_product(groups: &Vec<Option<Vec<char>>>, limit: u64) -> (r: Option<u64>)
    ensures
        match r {
            Some(p) => product_within(groups_view(groups@), limit as nat) == Some(p as nat),
            None => product_within(groups_view(groups@), limit as nat) is None,
        },
{
    if groups.len() < 3 {
        return None;
    }
    let a = match &groups[1] {
        Some(a) => a,
        None => {
            return None;
        },
    };
    let b = match &groups[2] {
        Some(b) => b,
        None => {
            return None;
        },
    };
    match (parse_unsigned(a, limit as u128), parse_unsigned(b, limit as u128)) {
        (Some(x), Some(y)) => {
            assert(x * y <= 0xffff_ffff_ffff_ffff * 0xffff_ffff_ffff_ffff) by (nonlinear_arith)
                requires
                    x <= 0xffff_ffff_ffff_ffff,
                    y <= 0xffff_ffff_ffff_ffff,
            ;
            let p: u128 = x * y;
            if p <= limit as u128 {
                Some(p as u64)
            } else {
                None
            }
        },
        _ => None,
    }
}

/// Adds up the products that the matches show, each within a limit.
pub fn bounded_sum(captures: &Vec<Vec<Option<Vec<char>>>>, limit: u64) -> (r: Option<u128>)
    ensures
        match r {
            Some(s) => sum_within(captures_view(captures@), limit as nat, captures.len() as int) == Some(
                s as nat,
            ),
            None => sum_within(captures_view(captures@), limit as nat, captures.len() as int) is None,
        },
{
    let ghost all = captures_view(captures@);
    let mut sum: u128 = 0;
    let mut i: usize = 0;
    while i < captures.len()
        invariant
            i <= captures.len(),
            all == captures_view(captures@),
            sum_within(all, limit as nat, i as int) == Some(sum as nat),
        decreases captures.len() - i,
    {
        proof {
            assert(all[i as int] == groups_view(captures@[i as int]@));
            lemma_sum_within(all, limit as nat, i as int, i as int);
            lemma_sum_within(all, limit as nat, i + 1, captures.len() as int);
            assert(i * limit <= 0xffff_ffff_ffff_ffff * 0xffff_ffff_ffff_ffff) by (nonlinear_arith)
                requires
                    i <= 0xffff_ffff_ffff_ffff,
                    limit <= 0xffff_ffff_ffff_ffff,
            ;
        }
        match bounded_product(&captures[i], limit) {
            Some(p) => {
                sum += p as u128;
            },
            None => {
                assert(sum_within(all, limit as nat, i + 1) is None);
                return None;
            },
        }
        i += 1;
    }
    Some(sum)
}

/// The mark that switches multiplications on.
pub open spec fn do_mark() -> Seq<char> {
    seq!['d', 'o', '(', ')']
}

/// The mark that switches multiplications off.
pub open spec fn dont_mark() -> Seq<char> {
    seq!['d', 'o', 'n', '\'', 't', '(', ')']
}

/// The first `n` characters of a text without its line feeds.
pub open spec fn unbroken(s: Seq<char>, n: int) -> Seq<char>
    decreases n,
{
    if n <= 0 {
        Seq::empty()
    } else if s[n - 1] == '\n' {
        unbroken(s, n - 1)
    } else {
        unbroken(s, n - 1).push(s[n - 1])
    }
}

/// From each of the first `n` segments, what follows its first switching
/// on, in pieces between the marks.
pub open spec fn gathered(segments: Seq<Seq<char>>, n: int) -> Seq<Seq<char>>
    decreases n,
{
    if n <= 0 {
        Seq::empty()
    } else {
        gathered(segments, n - 1) + pieces(segments[n - 1], do_mark()).skip(1)
    }
}

/// The parts of a text in which multiplications are switched on. They are
/// on at the start; `don't()` switches them off and `do()` on again. Line
/// feeds do not count.
pub open spec fn enabled_parts(memory: Seq<char>) -> Seq<Seq<char>> {
    let segments = pieces(do_mark() + unbroken(memory, memory.len() as int), dont_mark());
    gathered(segments, segments.len() as int)
}

/// Finds the parts of a text in which multiplications are switched on.
pub fn enabled(memory: &str) -> (parts: Vec<Vec<char>>)
    ensures
        views(parts@) == enabled_parts(memory@),
{
    let raw = chars_of(memory);
    let mut text: Vec<char> = Vec::new();
    text.push('d');
    text.push('o');
    text.push('(');
    text.push(')');
    assert(text@ =~= do_mark() + unbroken(raw@, 0));
    let mut i: usize = 0;
    while i < raw.len()
        invariant
            i <= raw.len(),
            text@ == do_mark() + unbroken(raw@, i as int),
        decreases raw.len() - i,
    {
        if raw[i] != '\n' {
            text.push(raw[i]);
        }
        assert(text@ =~= do_mark() + unbroken(raw@, i + 1));
        i += 1;
    }
    let mut on: Vec<char> = Vec::new();
    on.push('d');
    on.push('o');
    on.push('(');
    on.push(')');
    assert(on@ =~= do_mark());
    let mut off: Vec<char> = Vec::new();
    off.push('d');
    off.push('o');
    off.push('n');
    off.push('\'');
    off.push('t');
    off.push('(');
    off.push(')');
    assert(off@ =~= dont_mark());
    let segments = split_at_each(&text, &off);
    let ghost segs = views(segments@);
    let mut parts: Vec<Vec<char>> = Vec::new();
    assert(views(parts@) =~= gathered(segs, 0));
    let mut k: usize = 0;
    while k < segments.len()
        invariant
            k <= segments.len(),
            segs == views(segments@),
            on@ == do_mark(),
            views(parts@) == gathered(segs, k as int),
        decreases segments.len() - k,
    {
        let mut pieces_here = split_at_each(&segments[k], &on);
        let ghost found = views(pieces_here@);
        let ghost before = views(parts@);
        assert(segs[k as int] == segments@[k as int]@);
        let mut j: usize = 1;
        assert(before =~= before + found.subrange(1, 1));
        assert forall|t: int| 0 <= t < found.len() implies found[t] == (#[trigger] pieces_here@[t])@ by {
            assert(found[t] == views(pieces_here@)[t]);
        }
        while j < pieces_here.len()
            invariant
                1 <= j <= pieces_here.len(),
                found.len() == pieces_here.len(),
                forall|t: int| j <= t < found.len() ==> found[t] == (#[trigger] pieces_here@[t])@,
                views(parts@) == before + found.subrange(1, j as int),
            decreases pieces_here.len() - j,
        {
            let mut piece: Vec<char> = Vec::new();
            pieces_here.set_and_swap(j, &mut piece);
            proof {
                lemma_views_push(parts@, piece);
                assert(piece@ == found[j as int]);
                assert(before + found.subrange(1, j + 1) =~= (before + found.subrange(1, j as int)).push(
                    found[j as int],
                ));
            }
            parts.push(piece);
            j += 1;
        }
        assert(found.subrange(1, found.len() as int) =~= found.skip(1));
        k += 1;
    }
    parts
}

/// The regular expression of a multiplication of numbers of any length:
/// `mul(`, a number, a comma, another number, `)`.
pub open spec fn wide_pattern() -> Seq<char> {
    "mul\\((\\d+),(\\d+)\\)"@
}

/// The greatest number that a product or a sum may reach.
pub const LIMIT: u64 = 0x7fff_ffff_ffff_ffff;

/// What the multiplications hidden in one part add up to.
pub open spec fn part_sum(part: Seq<char>) -> Option<nat> {
    match regex_captures(wide_pattern(), part) {
        Some(c) => sum_within(c, LIMIT as nat, c.len() as int),
        None => None,
    }
}

/// What the multiplications hidden in the first `n` parts add up to.
pub open spec fn parts_sum(parts: Seq<Seq<char>>, n: int) -> Option<nat>
    decreases n,
{
    if n <= 0 {
        Some(0)
    } else {
        match (parts_sum(parts, n - 1), part_sum(parts[n - 1])) {
            (Some(s), Some(p)) => Some(s + p),
            _ => None,
        }
    }
}

/// A sum over parts fails for good, and never gets smaller.
pub proof fn lemma_parts_sum(parts: Seq<Seq<char>>, n: int, m: int)
    requires
        0 <= n <= m,
    ensures
        parts_sum(parts, n) is None ==> parts_sum(parts, m) is None,
        parts_sum(parts, n) is Some && parts_sum(parts, m) is Some ==> parts_sum(parts, n).unwrap()
            <= parts_sum(parts, m).unwrap(),
    decreases m,
{
    if n < m {
        lemma_parts_sum(parts, n, m - 1);
    }
}

/// What the multiplications add up to that stand where they are switched
/// on; nothing where a number is not written in the digits `0` to `9`, or
/// where a number, a product or the sum is beyond `LIMIT`.
pub open spec fn enabled_sum(memory: Seq<char>) -> Option<nat> {
    let parts = enabled_parts(memory);
    match parts_sum(parts, parts.len() as int) {
        Some(t) => if t <= LIMIT {
            Some(t)
        } else {
            None
        },
        None => None,
    }
}

/// What the multiplications hidden in the given parts add up to, as far
/// as the sum stays within `LIMIT`.
pub fn sum_parts(parts: &Vec<Vec<char>>) -> (r: Option<u64>)
    ensures
        match parts_sum(views(parts@), parts.len() as int) {
            Some(t) => if t <= LIMIT {
                r == Some(t as u64)
            } else {
                r is None
            },
            None => r is None,
        },
{
    let ghost all = views(parts@);
    let mut total: u128 = 0;
    let mut i: usize = 0;
    while i < parts.len()
        invariant
            i <= parts.len(),
            all == views(parts@),
            parts_sum(all, i as int) == Some(total as nat),
            total <= LIMIT,
        decreases parts.len() - i,
    {
        assert(all[i as int] == parts@[i as int]@);
        proof {
            lemma_parts_sum(all, i + 1, parts.len() as int);
        }
        let text = string_of(&parts[i]);
        let sum = match captures_of("mul\\((\\d+),(\\d+)\\)", &text) {
            Some(c) => {
                proof {
                    lemma_sum_within(captures_view(c@), LIMIT as nat, c.len() as int, c.len() as int);
                    assert(c.len() * LIMIT <= 0xffff_ffff_ffff_ffff * 0x7fff_ffff_ffff_ffff)
                        by (nonlinear_arith)
                        requires
                            c.len() <= 0xffff_ffff_ffff_ffff,
                            LIMIT == 0x7fff_ffff_ffff_ffff,
                    ;
                }
                bounded_sum(&c, LIMIT)
            },
            None => None,
        };
        match sum {
            Some(s) => {
                total += s;
                if total > LIMIT as u128 {
                    return None;
                }
            },
            None => {
                return None;
            },
        }
        i += 1;
    }
    Some(total as u64)
}

/// Adds up the products of the multiplications that stand where they are
/// switched on.
pub fn sum_enabled_multiplications(memory: &str) -> (r: Option<u64>)
    ensures
        match r {
            Some(s) => enabled_sum(memory@) == Some(s as nat),
            None => enabled_sum(memory@) is None,
        },
{
    let parts = enabled(memory);
    sum_parts(&parts)
}

} // verus!
