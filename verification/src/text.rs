//! Plain text as a sequence of characters: lines, fields and numbers.

use vstd::prelude::*;

verus! {

/// The characters of a string slice, in order.
pub fn chars_of(s: &str) -> (v: Vec<char>)
    ensures
        v@ == s@,
{
    let mut v: Vec<char> = Vec::new();
    for c in it: s.chars()
        invariant
            it.seq() == s@,
            v@ == it.seq().take(it.index() as int),
    {
        v.push(c);
    }
    v
}

/// Where the first `sep` of `s` stands; the length of `s` if it holds none.
pub open spec fn first_index(s: Seq<char>, sep: char) -> int
    decreases s.len(),
{
    if s.len() == 0 {
        0
    } else if s[0] == sep {
        0
    } else {
        1 + first_index(s.drop_first(), sep)
    }
}

/// `first_index` is the least place that holds `sep`.
pub proof fn lemma_first_index(s: Seq<char>, sep: char, n: int)
    requires
        0 <= n <= s.len(),
        forall|k: int| 0 <= k < n ==> s[k] != sep,
        n == s.len() || s[n] == sep,
    ensures
        first_index(s, sep) == n,
    decreases s.len(),
{
    if s.len() > 0 && n > 0 {
        assert(s[0] != sep);
        let t = s.drop_first();
        assert forall|k: int| 0 <= k < n - 1 implies t[k] != sep by {
            assert(t[k] == s[k + 1]);
        }
        lemma_first_index(t, sep, n - 1);
    }
}

/// A line without the carriage return at its end, if it has one.
pub open spec fn strip_cr(line: Seq<char>) -> Seq<char> {
    if line.len() > 0 && line.last() == '\r' {
        line.drop_last()
    } else {
        line
    }
}

/// The lines of a text. A line ends at a line feed; a carriage return just
/// before the line feed belongs to the line ending too. What follows the
/// last line feed is a line if it is not empty.
pub open spec fn lines_of(s: Seq<char>) -> Seq<Seq<char>>
    decreases s.len(),
{
    if s.len() == 0 {
        Seq::empty()
    } else {
        let n = first_index(s, '\n');
        if n < 0 || n >= s.len() {
            seq![s]
        } else {
            seq![strip_cr(s.take(n))] + lines_of(s.skip(n + 1))
        }
    }
}

/// The pieces of `s` between the occurrences of `sep`; one more piece than
/// there are separators.
pub open spec fn split_by(s: Seq<char>, sep: char) -> Seq<Seq<char>>
    decreases s.len(),
{
    let n = first_index(s, sep);
    if n < 0 || n >= s.len() {
        seq![s]
    } else {
        seq![s.take(n)] + split_by(s.skip(n + 1), sep)
    }
}

/// `sep` stands in `s` at `i`.
pub open spec fn stands_at(s: Seq<char>, sep: Seq<char>, i: int) -> bool {
    0 <= i && i + sep.len() <= s.len() && s.subrange(i, i + sep.len()) == sep
}

/// The first place at or after `from` where `sep` stands in `s`; the
/// length of `s` if there is none.
pub open spec fn next_stand(s: Seq<char>, sep: Seq<char>, from: int) -> int
    decreases s.len() - from,
{
    if from < 0 || from >= s.len() || from + sep.len() > s.len() {
        s.len() as int
    } else if stands_at(s, sep, from) {
        from
    } else {
        next_stand(s, sep, from + 1)
    }
}

/// The pieces of `s` from `from` on between the places where `sep`
/// stands, found from left to right, none of them overlapping another:
/// one more piece than there are such places.
pub open spec fn pieces_from(s: Seq<char>, sep: Seq<char>, from: int) -> Seq<Seq<char>>
    decreases s.len() - from,
{
    let n = next_stand(s, sep, from);
    if sep.len() == 0 || from < 0 || n < from || n + sep.len() > s.len() {
        seq![s.subrange(from, s.len() as int)]
    } else {
        seq![s.subrange(from, n)] + pieces_from(s, sep, n + sep.len())
    }
}

/// The pieces of `s` between the places where `sep` stands.
pub open spec fn pieces(s: Seq<char>, sep: Seq<char>) -> Seq<Seq<char>> {
    pieces_from(s, sep, 0)
}

/// Where `sep` stands nowhere from `from` up to `i`, the first place
/// where it stands is sought from `i` on.
pub proof fn lemma_next_stand(s: Seq<char>, sep: Seq<char>, from: int, i: int)
    requires
        0 <= from <= i,
        forall|k: int| from <= k < i ==> !stands_at(s, sep, k),
    ensures
        next_stand(s, sep, from) == next_stand(s, sep, i) || (i + sep.len() > s.len() && next_stand(
            s,
            sep,
            from,
        ) == s.len()),
    decreases i - from,
{
    if from < i && from < s.len() && from + sep.len() <= s.len() {
        lemma_next_stand(s, sep, from + 1, i);
    }
}

/// Whether `sep` stands in `s` at `i`.
pub fn stands(s: &Vec<char>, sep: &Vec<char>, i: usize) -> (b: bool)
    ensures
        b == stands_at(s@, sep@, i as int),
{
    if sep.len() > s.len() || i > s.len() - sep.len() {
        return false;
    }
    let mut k: usize = 0;
    while k < sep.len()
        invariant
            k <= sep.len(),
            i + sep.len() <= s.len(),
            forall|j: int| 0 <= j < k ==> s@[i + j] == sep@[j],
        decreases sep.len() - k,
    {
        if s[i + k] != sep[k] {
            assert(s@.subrange(i as int, i + sep.len())[k as int] == s@[i + k]);
            return false;
        }
        k += 1;
    }
    assert(s@.subrange(i as int, i + sep.len()) =~= sep@);
    true
}

/// Splits a text at every place where `sep` stands.
pub fn split_at_each(s: &Vec<char>, sep: &Vec<char>) -> (out: Vec<Vec<char>>)
    requires
        sep.len() > 0,
    ensures
        views(out@) == pieces(s@, sep@),
        out.len() >= 1,
{
    let mut out: Vec<Vec<char>> = Vec::new();
    let mut cur: Vec<char> = Vec::new();
    let mut i: usize = 0;
    let ghost mut start: int = 0;
    assert(views(out@) =~= Seq::<Seq<char>>::empty());
    while i < s.len()
        invariant
            0 <= start <= i <= s.len(),
            sep.len() > 0,
            cur@ == s@.subrange(start, i as int),
            forall|k: int| start <= k < i ==> !stands_at(s@, sep@, k),
            pieces(s@, sep@) == views(out@) + pieces_from(s@, sep@, start),
        decreases s.len() - i,
    {
        if stands(s, sep, i) {
            proof {
                lemma_next_stand(s@, sep@, start, i as int);
                assert(next_stand(s@, sep@, start) == i);
                lemma_views_push(out@, cur);
                assert(views(out@).push(cur@) + pieces_from(s@, sep@, i + sep.len()) =~= views(out@) + (
                seq![cur@] + pieces_from(s@, sep@, i + sep.len())));
            }
            out.push(cur);
            cur = Vec::new();
            i += sep.len();
            proof {
                start = i as int;
                assert(cur@ =~= s@.subrange(start, i as int));
            }
        } else {
            cur.push(s[i]);
            assert(cur@ =~= s@.subrange(start, i + 1));
            i += 1;
        }
    }
    proof {
        lemma_next_stand(s@, sep@, start, i as int);
        assert(next_stand(s@, sep@, i as int) == s.len());
        lemma_views_push(out@, cur);
        assert(views(out@).push(cur@) =~= views(out@) + seq![cur@]);
    }
    out.push(cur);
    out
}

/// The views of the vectors that a sequence holds.
pub open spec fn views<T>(rows: Seq<Vec<T>>) -> Seq<Seq<T>> {
    Seq::new(rows.len(), |i: int| rows[i]@)
}

/// One more vector adds its view.
pub proof fn lemma_views_push<T>(rows: Seq<Vec<T>>, row: Vec<T>)
    ensures
        views(rows.push(row)) == views(rows).push(row@),
{
    assert(views(rows.push(row)) =~= views(rows).push(row@));
}

/// Splits a text into its lines.
pub fn split_lines(text: &Vec<char>) -> (out: Vec<Vec<char>>)
    ensures
        views(out@) == lines_of(text@),
{
    let mut out: Vec<Vec<char>> = Vec::new();
    let mut cur: Vec<char> = Vec::new();
    let mut i: usize = 0;
    let ghost mut start: int = 0;
    assert(views(out@) =~= Seq::<Seq<char>>::empty());
    assert(text@.skip(0) =~= text@);
    while i < text.len()
        invariant
            0 <= start <= i <= text.len(),
            cur@ == text@.subrange(start, i as int),
            forall|k: int| start <= k < i ==> text@[k] != '\n',
            lines_of(text@) == views(out@) + lines_of(text@.skip(start)),
        decreases text.len() - i,
    {
        let c = text[i];
        if c == '\n' {
            let ghost rest = text@.skip(start);
            let ghost n = i - start;
            proof {
                assert forall|k: int| 0 <= k < n implies rest[k] != '\n' by {
                    assert(rest[k] == text@[start + k]);
                }
                lemma_first_index(rest, '\n', n);
                assert(rest.take(n) =~= cur@);
                assert(rest.skip(n + 1) =~= text@.skip(i + 1));
            }
            if cur.len() > 0 && cur[cur.len() - 1] == '\r' {
                cur.pop();
            }
            proof {
                assert(cur@ =~= strip_cr(rest.take(n)));
                lemma_views_push(out@, cur);
                assert(views(out@).push(cur@) + lines_of(text@.skip(i + 1)) =~= views(out@)
                    + (seq![cur@] + lines_of(text@.skip(i + 1))));
            }
            out.push(cur);
            cur = Vec::new();
            proof {
                start = i + 1;
                assert(cur@ =~= text@.subrange(start, i + 1));
            }
        } else {
            cur.push(c);
            assert(cur@ =~= text@.subrange(start, i + 1));
        }
        i += 1;
    }
    proof {
        let rest = text@.skip(start);
        assert(rest =~= cur@);
        if rest.len() > 0 {
            assert forall|k: int| 0 <= k < rest.len() implies rest[k] != '\n' by {
                assert(rest[k] == text@[start + k]);
            }
            lemma_first_index(rest, '\n', rest.len() as int);
            lemma_views_push(out@, cur);
        } else {
            assert(views(out@) + Seq::<Seq<char>>::empty() =~= views(out@));
        }
    }
    if cur.len() > 0 {
        out.push(cur);
    }
    out
}

/// Splits a line at every occurrence of `sep`.
pub fn split_on(line: &Vec<char>, sep: char) -> (out: Vec<Vec<char>>)
    ensures
        views(out@) == split_by(line@, sep),
        out.len() >= 1,
{
    let mut out: Vec<Vec<char>> = Vec::new();
    let mut cur: Vec<char> = Vec::new();
    let mut i: usize = 0;
    let ghost mut start: int = 0;
    assert(views(out@) =~= Seq::<Seq<char>>::empty());
    assert(line@.skip(0) =~= line@);
    while i < line.len()
        invariant
            0 <= start <= i <= line.len(),
            cur@ == line@.subrange(start, i as int),
            forall|k: int| start <= k < i ==> line@[k] != sep,
            split_by(line@, sep) == views(out@) + split_by(line@.skip(start), sep),
        decreases line.len() - i,
    {
        let c = line[i];
        if c == sep {
            let ghost rest = line@.skip(start);
            let ghost n = i - start;
            proof {
                assert forall|k: int| 0 <= k < n implies rest[k] != sep by {
                    assert(rest[k] == line@[start + k]);
                }
                lemma_first_index(rest, sep, n);
                assert(rest.take(n) =~= cur@);
                assert(rest.skip(n + 1) =~= line@.skip(i + 1));
                lemma_views_push(out@, cur);
                assert(views(out@).push(cur@) + split_by(line@.skip(i + 1), sep)
                    =~= views(out@) + (seq![cur@] + split_by(line@.skip(i + 1), sep)));
            }
            out.push(cur);
            cur = Vec::new();
            proof {
                start = i + 1;
                assert(cur@ =~= line@.subrange(start, i + 1));
            }
        } else {
            cur.push(c);
            assert(cur@ =~= line@.subrange(start, i + 1));
        }
        i += 1;
    }
    proof {
        let rest = line@.skip(start);
        assert(rest =~= cur@);
        assert forall|k: int| 0 <= k < rest.len() implies rest[k] != sep by {
            assert(rest[k] == line@[start + k]);
        }
        lemma_first_index(rest, sep, rest.len() as int);
        lemma_views_push(out@, cur);
    }
    out.push(cur);
    out
}


/// White space as Unicode defines it.
pub open spec fn is_space(c: char) -> bool {
    let n = c as u32;
    n == 0x20 || (0x09 <= n && n <= 0x0d) || n == 0x85 || n == 0xa0 || n == 0x1680 || (0x2000 <= n
        && n <= 0x200a) || n == 0x2028 || n == 0x2029 || n == 0x202f || n == 0x205f || n == 0x3000
}

/// Whether a character is white space.
pub fn is_whitespace(c: char) -> (b: bool)
    ensures
        b == is_space(c),
{
    let n = c as u32;
    n == 0x20 || (0x09 <= n && n <= 0x0d) || n == 0x85 || n == 0xa0 || n == 0x1680 || (0x2000 <= n
        && n <= 0x200a) || n == 0x2028 || n == 0x2029 || n == 0x202f || n == 0x205f || n == 0x3000
}

/// How many white space characters stand at the front of `s`.
pub open spec fn leading_spaces(s: Seq<char>) -> int
    decreases s.len(),
{
    if s.len() > 0 && is_space(s[0]) {
        1 + leading_spaces(s.drop_first())
    } else {
        0
    }
}

/// How many white space characters stand at the back of `s`.
pub open spec fn trailing_spaces(s: Seq<char>) -> int
    decreases s.len(),
{
    if s.len() > 0 && is_space(s.last()) {
        1 + trailing_spaces(s.drop_last())
    } else {
        0
    }
}

/// `s` without the white space at its front and at its back.
pub open spec fn trimmed(s: Seq<char>) -> Seq<char> {
    let a = leading_spaces(s);
    let b = s.len() - trailing_spaces(s);
    if 0 <= a <= b <= s.len() {
        s.subrange(a, b)
    } else {
        Seq::empty()
    }
}

pub proof fn lemma_leading_spaces(s: Seq<char>, n: int)
    requires
        0 <= n <= s.len(),
        forall|k: int| 0 <= k < n ==> is_space(s[k]),
        n == s.len() || !is_space(s[n]),
    ensures
        leading_spaces(s) == n,
    decreases s.len(),
{
    if n > 0 {
        let t = s.drop_first();
        assert forall|k: int| 0 <= k < n - 1 implies is_space(t[k]) by {
            assert(t[k] == s[k + 1]);
        }
        lemma_leading_spaces(t, n - 1);
    }
}

pub proof fn lemma_trailing_spaces(s: Seq<char>, n: int)
    requires
        0 <= n <= s.len(),
        forall|k: int| s.len() - n <= k < s.len() ==> is_space(s[k]),
        n == s.len() || !is_space(s[s.len() - n - 1]),
    ensures
        trailing_spaces(s) == n,
    decreases s.len(),
{
    if n > 0 {
        let t = s.drop_last();
        assert forall|k: int| t.len() - (n - 1) <= k < t.len() implies is_space(t[k]) by {
            assert(t[k] == s[k]);
        }
        lemma_trailing_spaces(t, n - 1);
    }
}

/// Removes the white space at both ends of a line.
pub fn trim(line: &Vec<char>) -> (out: Vec<char>)
    ensures
        out@ == trimmed(line@),
{
    let n = line.len();
    let mut a: usize = 0;
    while a < n && is_whitespace(line[a])
        invariant
            a <= n,
            n == line.len(),
            forall|k: int| 0 <= k < a ==> is_space(line@[k]),
        decreases n - a,
    {
        a += 1;
    }
    let mut b: usize = n;
    while b > a && is_whitespace(line[b - 1])
        invariant
            a <= b <= n,
            n == line.len(),
            forall|k: int| b <= k < n ==> is_space(line@[k]),
        decreases b,
    {
        b -= 1;
    }
    proof {
        lemma_leading_spaces(line@, a as int);
        if a == n {
            assert(b == n);
            lemma_trailing_spaces(line@, n as int);
        } else {
            lemma_trailing_spaces(line@, n - b);
        }
    }
    let mut out: Vec<char> = Vec::new();
    let mut i: usize = a;
    if a == n {
        assert(out@ =~= trimmed(line@));
        return out;
    }
    while i < b
        invariant
            a <= i <= b <= n,
            n == line.len(),
            out@ == line@.subrange(a as int, i as int),
        decreases b - i,
    {
        out.push(line[i]);
        assert(out@ =~= line@.subrange(a as int, i + 1));
        i += 1;
    }
    out
}

/// Where the first white space of `s` stands; the length of `s` if it holds
/// none.
pub open spec fn first_space(s: Seq<char>) -> int
    decreases s.len(),
{
    if s.len() == 0 {
        0
    } else if is_space(s[0]) {
        0
    } else {
        1 + first_space(s.drop_first())
    }
}

pub proof fn lemma_first_space(s: Seq<char>, n: int)
    requires
        0 <= n <= s.len(),
        forall|k: int| 0 <= k < n ==> !is_space(s[k]),
        n == s.len() || is_space(s[n]),
    ensures
        first_space(s) == n,
    decreases s.len(),
{
    if s.len() > 0 && n > 0 {
        let t = s.drop_first();
        assert forall|k: int| 0 <= k < n - 1 implies !is_space(t[k]) by {
            assert(t[k] == s[k + 1]);
        }
        lemma_first_space(t, n - 1);
    }
}

/// The words of a line: its longest stretches without white space.
pub open spec fn fields_of(s: Seq<char>) -> Seq<Seq<char>>
    decreases s.len(),
{
    if s.len() == 0 {
        Seq::empty()
    } else if is_space(s[0]) {
        fields_of(s.drop_first())
    } else {
        let n = first_space(s);
        if n <= 0 || n > s.len() {
            Seq::empty()
        } else {
            seq![s.take(n)] + fields_of(s.skip(n))
        }
    }
}

/// Splits a line into its words.
pub fn split_whitespace(line: &Vec<char>) -> (out: Vec<Vec<char>>)
    ensures
        views(out@) == fields_of(line@),
{
    let n = line.len();
    let mut out: Vec<Vec<char>> = Vec::new();
    let mut i: usize = 0;
    assert(views(out@) =~= Seq::<Seq<char>>::empty());
    assert(line@.skip(0) =~= line@);
    while i < n
        invariant
            i <= n,
            n == line.len(),
            fields_of(line@) == views(out@) + fields_of(line@.skip(i as int)),
        decreases n - i,
    {
        if is_whitespace(line[i]) {
            proof {
                assert(line@.skip(i as int).drop_first() =~= line@.skip(i + 1));
            }
            i += 1;
        } else {
            let mut cur: Vec<char> = Vec::new();
            let mut j: usize = i;
            while j < n && !is_whitespace(line[j])
                invariant
                    i <= j <= n,
                    n == line.len(),
                    cur@ == line@.subrange(i as int, j as int),
                    forall|k: int| i <= k < j ==> !is_space(line@[k]),
                decreases n - j,
            {
                cur.push(line[j]);
                assert(cur@ =~= line@.subrange(i as int, j + 1));
                j += 1;
            }
            proof {
                let t = line@.skip(i as int);
                let m = j - i;
                assert forall|k: int| 0 <= k < m implies !is_space(t[k]) by {
                    assert(t[k] == line@[i + k]);
                }
                lemma_first_space(t, m);
                assert(t.take(m) =~= cur@);
                assert(t.skip(m) =~= line@.skip(j as int));
                lemma_views_push(out@, cur);
                assert(views(out@).push(cur@) + fields_of(line@.skip(j as int)) =~= views(out@) + (
                seq![cur@] + fields_of(line@.skip(j as int))));
            }
            out.push(cur);
            i = j;
        }
    }
    proof {
        assert(views(out@) + Seq::<Seq<char>>::empty() =~= views(out@));
    }
    out
}

/// `s` begins with `prefix`.
pub open spec fn has_prefix(s: Seq<char>, prefix: Seq<char>) -> bool {
    prefix.len() <= s.len() && s.take(prefix.len() as int) == prefix
}

/// Whether a line begins with `prefix`.
pub fn starts_with(line: &Vec<char>, prefix: &Vec<char>) -> (b: bool)
    ensures
        b == has_prefix(line@, prefix@),
{
    if prefix.len() > line.len() {
        return false;
    }
    let mut i: usize = 0;
    while i < prefix.len()
        invariant
            i <= prefix.len() <= line.len(),
            forall|k: int| 0 <= k < i ==> line@[k] == prefix@[k],
        decreases prefix.len() - i,
    {
        if line[i] != prefix[i] {
            assert(line@.take(prefix.len() as int)[i as int] != prefix@[i as int]);
            return false;
        }
        i += 1;
    }
    assert(line@.take(prefix.len() as int) =~= prefix@);
    true
}

/// The part of a line from position `from` on; nothing if the line is
/// shorter.
pub fn tail(line: &Vec<char>, from: usize) -> (out: Vec<char>)
    ensures
        from <= line.len() ==> out@ == line@.skip(from as int),
        from > line.len() ==> out@ == Seq::<char>::empty(),
{
    let mut out: Vec<char> = Vec::new();
    if from > line.len() {
        return out;
    }
    let mut i: usize = from;
    while i < line.len()
        invariant
            from <= i <= line.len(),
            out@ == line@.subrange(from as int, i as int),
        decreases line.len() - i,
    {
        out.push(line[i]);
        assert(out@ =~= line@.subrange(from as int, i + 1));
        i += 1;
    }
    assert(out@ =~= line@.skip(from as int));
    out
}

/// The value of a decimal digit.
pub open spec fn digit_of(c: char) -> Option<nat> {
    if '0' <= c && c <= '9' {
        Some((c as u32 - '0' as u32) as nat)
    } else {
        None
    }
}

/// The value of a string of decimal digits; nothing if it is empty or
/// holds anything else.
pub open spec fn decimal(s: Seq<char>) -> Option<nat>
    decreases s.len(),
{
    if s.len() == 0 {
        None
    } else if s.len() == 1 {
        digit_of(s[0])
    } else {
        match (decimal(s.drop_last()), digit_of(s.last())) {
            (Some(v), Some(d)) => Some(v * 10 + d),
            _ => None,
        }
    }
}

/// What `s` means as an unsigned number no greater than `max`: digits, with
/// or without a plus sign before them.
pub open spec fn unsigned_of(s: Seq<char>, max: nat) -> Option<nat> {
    let body = if s.len() > 0 && s[0] == '+' {
        s.skip(1)
    } else {
        s
    };
    match decimal(body) {
        Some(v) => if v <= max {
            Some(v)
        } else {
            None
        },
        None => None,
    }
}

/// What `s` means as a number from `min` to `max`: digits, with or without
/// a sign before them.
pub open spec fn signed_of(s: Seq<char>, min: int, max: int) -> Option<int> {
    let negative = s.len() > 0 && s[0] == '-';
    let body = if s.len() > 0 && (s[0] == '+' || s[0] == '-') {
        s.skip(1)
    } else {
        s
    };
    match decimal(body) {
        Some(v) => {
            let n = if negative {
                -(v as int)
            } else {
                v as int
            };
            if min <= n <= max {
                Some(n)
            } else {
                None
            }
        },
        None => None,
    }
}

/// A string of digits is worth at least as much as any of its front parts,
/// and is nothing if one of them is nothing.
pub proof fn lemma_decimal_grows(s: Seq<char>, n: int)
    requires
        1 <= n <= s.len(),
    ensures
        decimal(s.take(n)) is None ==> decimal(s) is None,
        decimal(s) is Some ==> decimal(s.take(n)).unwrap() <= decimal(s).unwrap(),
    decreases s.len() - n,
{
    if n < s.len() {
        lemma_decimal_grows(s, n + 1);
        let t = s.take(n + 1);
        assert(t.drop_last() =~= s.take(n));
        assert(t.len() >= 2);
    } else {
        assert(s.take(n) =~= s);
    }
}

/// The value of a decimal digit, if the character is one.
pub fn digit_value(c: char) -> (r: Option<u8>)
    ensures
        match r {
            Some(d) => digit_of(c) == Some(d as nat) && d <= 9,
            None => digit_of(c) is None,
        },
{
    let n = c as u32;
    if 48 <= n && n <= 57 {
        Some((n - 48) as u8)
    } else {
        None
    }
}

/// Reads a string of decimal digits worth at most `max`.
pub fn parse_digits(s: &Vec<char>, from: usize, max: u128) -> (r: Option<u128>)
    requires
        from <= s.len(),
    ensures
        match r {
            Some(v) => decimal(s@.skip(from as int)) == Some(v as nat) && v <= max,
            None => match decimal(s@.skip(from as int)) {
                Some(v) => v > max,
                None => true,
            },
        },
{
    let ghost body = s@.skip(from as int);
    if from == s.len() {
        return None;
    }
    let mut acc: u128 = 0;
    let mut i: usize = from;
    while i < s.len()
        invariant
            from <= i <= s.len(),
            from < s.len(),
            body == s@.skip(from as int),
            i > from ==> decimal(body.take(i - from)) == Some(acc as nat),
            i == from ==> acc == 0,
            acc <= max,
        decreases s.len() - i,
    {
        let ghost k = i - from;
        proof {
            assert(body.take(k + 1).drop_last() =~= body.take(k));
            assert(body.take(k + 1).last() == s@[i as int]);
            lemma_decimal_grows(body, k + 1);
        }
        let d = match digit_value(s[i]) {
            Some(d) => d,
            None => {
                return None;
            },
        };
        if d as u128 > max || acc > (max - d as u128) / 10 {
            return None;
        }
        acc = acc * 10 + d as u128;
        i += 1;
    }
    assert(body.take(body.len() as int) =~= body);
    Some(acc)
}

/// Reads an unsigned number no greater than `max`.
pub fn parse_unsigned(s: &Vec<char>, max: u128) -> (r: Option<u128>)
    ensures
        match r {
            Some(v) => unsigned_of(s@, max as nat) == Some(v as nat),
            None => unsigned_of(s@, max as nat) is None,
        },
{
    if s.len() > 0 && s[0] == '+' {
        parse_digits(s, 1, max)
    } else {
        assert(s@.skip(0) =~= s@);
        parse_digits(s, 0, max)
    }
}

/// Reads a number from `min` to `max`.
pub fn parse_signed(s: &Vec<char>, min: i128, max: i128) -> (r: Option<i128>)
    requires
        min <= 0 <= max,
        min > i128::MIN,
    ensures
        match r {
            Some(v) => signed_of(s@, min as int, max as int) == Some(v as int),
            None => signed_of(s@, min as int, max as int) is None,
        },
{
    if s.len() > 0 && s[0] == '-' {
        match parse_digits(s, 1, (-min) as u128) {
            Some(v) => Some(-(v as i128)),
            None => None,
        }
    } else if s.len() > 0 && s[0] == '+' {
        match parse_digits(s, 1, max as u128) {
            Some(v) => Some(v as i128),
            None => None,
        }
    } else {
        assert(s@.skip(0) =~= s@);
        match parse_digits(s, 0, max as u128) {
            Some(v) => Some(v as i128),
            None => None,
        }
    }
}

/// The character of a decimal digit.
pub open spec fn digit_char(d: nat) -> char {
    if d == 0 {
        '0'
    } else if d == 1 {
        '1'
    } else if d == 2 {
        '2'
    } else if d == 3 {
        '3'
    } else if d == 4 {
        '4'
    } else if d == 5 {
        '5'
    } else if d == 6 {
        '6'
    } else if d == 7 {
        '7'
    } else if d == 8 {
        '8'
    } else {
        '9'
    }
}

/// A number written in decimal digits, without leading zeros.
pub open spec fn decimal_digits(n: nat) -> Seq<char>
    decreases n,
{
    if n < 10 {
        seq![digit_char(n)]
    } else {
        decimal_digits(n / 10).push(digit_char(n % 10))
    }
}

/// Writes a number in decimal digits.
pub fn to_decimal(n: u128) -> (out: Vec<char>)
    ensures
        out@ == decimal_digits(n as nat),
    decreases n,
{
    let d = (n % 10) as u8;
    let c = if d == 0 {
        '0'
    } else if d == 1 {
        '1'
    } else if d == 2 {
        '2'
    } else if d == 3 {
        '3'
    } else if d == 4 {
        '4'
    } else if d == 5 {
        '5'
    } else if d == 6 {
        '6'
    } else if d == 7 {
        '7'
    } else if d == 8 {
        '8'
    } else {
        '9'
    };
    if n < 10 {
        let mut out: Vec<char> = Vec::new();
        out.push(c);
        assert(out@ =~= seq![digit_char(n as nat)]);
        out
    } else {
        let mut out = to_decimal(n / 10);
        out.push(c);
        out
    }
}

/// Appends one character to a string, by `String::push`: the string then
/// holds what it held, followed by the character.
#[verifier::external_body]
fn push_char(s: &mut String, c: char)
    ensures
        final(s)@ == old(s)@.push(c),
{
    s.push(c);
}

/// The string that holds the given characters.
pub fn string_of(chars: &Vec<char>) -> (s: String)
    ensures
        s@ == chars@,
{
    let mut s = String::new();
    let mut i: usize = 0;
    while i < chars.len()
        invariant
            i <= chars.len(),
            s@ == chars@.take(i as int),
        decreases chars.len() - i,
    {
        push_char(&mut s, chars[i]);
        assert(s@ =~= chars@.take(i + 1));
        i += 1;
    }
    assert(chars@.take(chars.len() as int) =~= chars@);
    s
}


/// An empty line begins at `k`: two line feeds stand there.
pub open spec fn blank_here(s: Seq<char>, k: int) -> bool {
    s[k] == '\n' && s[k + 1] == '\n'
}

/// Where two line feeds first stand together; -1 if nowhere.
pub open spec fn blank_at(s: Seq<char>) -> int
    decreases s.len(),
{
    if s.len() < 2 {
        -1
    } else if blank_here(s, 0) {
        0
    } else {
        let rest = blank_at(s.drop_first());
        if rest < 0 {
            -1
        } else {
            rest + 1
        }
    }
}

pub proof fn lemma_blank_at(s: Seq<char>, n: int)
    requires
        0 <= n,
        forall|k: int| 0 <= k < n && k + 1 < s.len() ==> !#[trigger] blank_here(s, k),
        n + 1 >= s.len() || blank_here(s, n),
    ensures
        blank_at(s) == (if n + 1 >= s.len() {
            -1
        } else {
            n
        }),
    decreases s.len(),
{
    if s.len() >= 2 && n > 0 {
        let t = s.drop_first();
        assert(!blank_here(s, 0));
        assert forall|k: int| 0 <= k < n - 1 && k + 1 < t.len() implies !#[trigger] blank_here(t, k) by {
            assert(t[k] == s[k + 1] && t[k + 1] == s[k + 2]);
            assert(!blank_here(s, k + 1));
        }
        lemma_blank_at(t, n - 1);
    }
}

/// The blocks of a text: its parts between pairs of line feeds.
pub open spec fn blocks_of(s: Seq<char>) -> Seq<Seq<char>>
    decreases s.len(),
{
    let n = blank_at(s);
    if n < 0 || n + 2 > s.len() {
        seq![s]
    } else {
        seq![s.take(n)] + blocks_of(s.skip(n + 2))
    }
}

/// Splits a text into its blocks.
pub fn split_blocks(text: &Vec<char>) -> (out: Vec<Vec<char>>)
    ensures
        views(out@) == blocks_of(text@),
        out.len() >= 1,
{
    let mut out: Vec<Vec<char>> = Vec::new();
    let mut cur: Vec<char> = Vec::new();
    let mut i: usize = 0;
    let ghost mut start: int = 0;
    assert(views(out@) =~= Seq::<Seq<char>>::empty());
    assert(text@.skip(0) =~= text@);
    while i < text.len()
        invariant
            0 <= start <= i <= text.len(),
            cur@ == text@.subrange(start, i as int),
            forall|k: int| start <= k < i && k + 1 < text.len() ==> !#[trigger] blank_here(text@, k),
            blocks_of(text@) == views(out@) + blocks_of(text@.skip(start)),
        decreases text.len() - i,
    {
        if text.len() - i >= 2 && text[i] == '\n' && text[i + 1] == '\n' {
            let ghost rest = text@.skip(start);
            let ghost n = i - start;
            proof {
                assert forall|k: int| 0 <= k < n && k + 1 < rest.len() implies !#[trigger] blank_here(
                    rest,
                    k,
                ) by {
                    assert(rest[k] == text@[start + k] && rest[k + 1] == text@[start + k + 1]);
                    assert(!blank_here(text@, start + k));
                }
                assert(blank_here(rest, n)) by {
                    assert(rest[n] == text@[i as int] && rest[n + 1] == text@[i + 1]);
                }
                lemma_blank_at(rest, n);
                assert(rest.take(n) =~= cur@);
                assert(rest.skip(n + 2) =~= text@.skip(i + 2));
                lemma_views_push(out@, cur);
                assert(views(out@).push(cur@) + blocks_of(text@.skip(i + 2)) =~= views(out@) + (
                seq![cur@] + blocks_of(text@.skip(i + 2))));
            }
            out.push(cur);
            cur = Vec::new();
            i += 2;
            proof {
                start = i as int;
                assert(cur@ =~= text@.subrange(start, i as int));
            }
        } else {
            cur.push(text[i]);
            assert(cur@ =~= text@.subrange(start, i + 1));
            proof {
                if i + 1 < text.len() {
                    assert(!blank_here(text@, i as int));
                }
            }
            i += 1;
        }
    }
    proof {
        let rest = text@.skip(start);
        assert(rest =~= cur@);
        assert forall|k: int| 0 <= k < rest.len() && k + 1 < rest.len() implies !#[trigger] blank_here(
            rest,
            k,
        ) by {
            assert(rest[k] == text@[start + k] && rest[k + 1] == text@[start + k + 1]);
            assert(!blank_here(text@, start + k));
        }
        lemma_blank_at(rest, rest.len() as int);
        lemma_views_push(out@, cur);
    }
    out.push(cur);
    out
}

} // verus!
