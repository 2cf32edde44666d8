//! Computers linked in pairs, and the groups of three among them.

use vstd::prelude::*;
use crate::marks::{blank_marks, lemma_marked_rows_bound, lemma_rows_plus, marked_in_rows, set_mark};
use crate::text::{chars_of, lines_of, split_by, split_lines, split_on, starts_with, views};

verus! {

/// A network: the names of its computers, each once, and its links as
/// pairs of places in the list of names.
pub struct Network {
    pub names: Vec<Vec<char>>,
    pub links: Vec<(usize, usize)>,
}

/// The two names that a line links: what stands before its first hyphen
/// and what follows up to the next one.
pub open spec fn ends_of(line: Seq<char>) -> Option<(Seq<char>, Seq<char>)> {
    let parts = split_by(line, '-');
    if parts.len() >= 2 {
        Some((parts[0], parts[1]))
    } else {
        None
    }
}

/// No name stands twice in the list.
pub open spec fn distinct(names: Seq<Seq<char>>) -> bool {
    forall|i: int, j: int| 0 <= i < j < names.len() ==> names[i] != names[j]
}

/// Link `k` joins the two names of line `k`.
pub open spec fn joins(names: Seq<Seq<char>>, link: (usize, usize), line: Seq<char>) -> bool {
    &&& link.0 < names.len()
    &&& link.1 < names.len()
    &&& ends_of(line) == Some((names[link.0 as int], names[link.1 as int]))
}

/// Some link touches the `n`-th name.
pub open spec fn touched(links: Seq<(usize, usize)>, n: int) -> bool {
    exists|k: int| 0 <= k < links.len() && ((#[trigger] links[k]).0 == n || links[k].1 == n)
}

/// The network is that of the lines: it has one link for each line, in
/// order, no name twice, and no name that no link touches.
pub open spec fn lists(names: Seq<Seq<char>>, links: Seq<(usize, usize)>, lines: Seq<Seq<char>>) -> bool {
    &&& links.len() == lines.len()
    &&& distinct(names)
    &&& forall|k: int| 0 <= k < links.len() ==> joins(names, #[trigger] links[k], lines[k])
    &&& forall|n: int| 0 <= n < names.len() ==> #[trigger] touched(links, n)
}

/// Whether two texts are the same.
pub fn same_text(a: &Vec<char>, b: &Vec<char>) -> (r: bool)
    ensures
        r == (a@ == b@),
{
    if a.len() != b.len() {
        return false;
    }
    let r = starts_with(a, b);
    assert(a@.take(a.len() as int) =~= a@);
    r
}

/// The place of a name in the list, where it has one.
pub fn find_name(names: &Vec<Vec<char>>, name: &Vec<char>) -> (r: Option<usize>)
    ensures
        match r {
            Some(i) => i < names.len() && names[i as int]@ == name@,
            None => forall|i: int| 0 <= i < names.len() ==> names[i]@ != name@,
        },
{
    let mut i: usize = 0;
    while i < names.len()
        invariant
            i <= names.len(),
            forall|k: int| 0 <= k < i ==> names[k]@ != name@,
        decreases names.len() - i,
    {
        if same_text(&names[i], name) {
            return Some(i);
        }
        i += 1;
    }
    None
}

/// The place of a name in the list, after adding it at the end if it had
/// none.
pub fn intern(names: &mut Vec<Vec<char>>, name: Vec<char>) -> (at: usize)
    requires
        distinct(views(old(names)@)),
    ensures
        distinct(views(final(names)@)),
        at < final(names).len(),
        final(names)[at as int]@ == name@,
        views(final(names)@) == views(old(names)@) || (at == old(names).len() && views(final(names)@)
            == views(old(names)@).push(name@)),
{
    let ghost before = views(names@);
    match find_name(names, &name) {
        Some(at) => at,
        None => {
            proof {
                crate::text::lemma_views_push(names@, name);
                assert forall|i: int, j: int| 0 <= i < j < before.len() + 1 implies before.push(name@)[i]
                    != before.push(name@)[j] by {
                    if j < before.len() {
                        assert(before[i] != before[j]);
                    } else {
                        assert(before[i] == names@[i]@);
                    }
                }
            }
            names.push(name);
            names.len() - 1
        },
    }
}

/// Reads a network from lines of two names with a hyphen between them.
/// `None` where a line has no hyphen.
pub fn parse_links(input: &str) -> (r: Option<Network>)
    ensures
        r is Some <==> forall|k: int|
            0 <= k < lines_of(input@).len() ==> ends_of(#[trigger] lines_of(input@)[k]) is Some,
        r is Some ==> lists(views(r.unwrap().names@), r.unwrap().links@, lines_of(input@)),
{
    let text = chars_of(input);
    let mut lines = split_lines(&text);
    let ghost all = lines_of(input@);
    let mut names: Vec<Vec<char>> = Vec::new();
    let mut links: Vec<(usize, usize)> = Vec::new();
    let mut k: usize = 0;
    while k < lines.len()
        invariant
            k <= lines.len(),
            all == views(lines@),
            all == lines_of(input@),
            links.len() == k,
            distinct(views(names@)),
            forall|i: int| 0 <= i < k ==> ends_of(#[trigger] all[i]) is Some,
            forall|i: int| 0 <= i < k ==> joins(views(names@), #[trigger] links[i], all[i]),
            forall|n: int| 0 <= n < names.len() ==> #[trigger] touched(links@, n),
        decreases lines.len() - k,
    {
        assert(all[k as int] == lines@[k as int]@);
        let mut parts = split_on(&lines[k], '-');
        if parts.len() < 2 {
            assert(ends_of(all[k as int]) is None);
            return None;
        }
        let ghost found = views(parts@);
        assert(found[0] == parts@[0]@ && found[1] == parts@[1]@);
        let mut first: Vec<char> = Vec::new();
        let mut second: Vec<char> = Vec::new();
        parts.set_and_swap(0, &mut first);
        parts.set_and_swap(1, &mut second);
        let ghost names0 = views(names@);
        let ghost links0 = links@;
        let a = intern(&mut names, first);
        let ghost names1 = views(names@);
        let b = intern(&mut names, second);
        let ghost names2 = views(names@);
        links.push((a, b));
        proof {
            assert(names1[a as int] == names@[a as int]@) by {
                if names2 != names1 {
                    assert(names2 == names1.push(second@));
                }
                assert(names2[a as int] == names@[a as int]@);
            }
            assert(names2[b as int] == names@[b as int]@);
            assert forall|i: int| 0 <= i < k + 1 implies joins(names2, #[trigger] links[i], all[i]) by {
                if i < k {
                    assert(links[i] == links0[i]);
                    assert(joins(names0, links0[i], all[i]));
                    assert(names1[links0[i].0 as int] == names0[links0[i].0 as int]);
                    assert(names1[links0[i].1 as int] == names0[links0[i].1 as int]);
                    assert(names2[links0[i].0 as int] == names1[links0[i].0 as int]);
                    assert(names2[links0[i].1 as int] == names1[links0[i].1 as int]);
                }
            }
            assert forall|n: int| 0 <= n < names.len() implies #[trigger] touched(links@, n) by {
                if n < names0.len() {
                    assert(touched(links0, n));
                    let i = choose|i: int| 0 <= i < links0.len() && ((#[trigger] links0[i]).0 == n || links0[i].1 == n);
                    assert(links@[i] == links0[i]);
                } else {
                    assert(n == a || n == b);
                    assert(links@[k as int] == (a, b));
                }
            }
        }
        k += 1;
    }
    Some(Network { names, links })
}

/// Link `k` joins the `a`-th and the `b`-th computer, one way or the
/// other.
pub open spec fn link_is(links: Seq<(usize, usize)>, k: int, a: int, b: int) -> bool {
    0 <= k < links.len() && ((links[k].0 == a && links[k].1 == b) || (links[k].0 == b && links[k].1
        == a))
}

/// Some link joins the `a`-th and the `b`-th computer.
pub open spec fn linked(links: Seq<(usize, usize)>, a: int, b: int) -> bool {
    exists|k: int| #[trigger] link_is(links, k, a, b)
}

/// The name of the `a`-th computer begins with `t`.
pub open spec fn marked(names: Seq<Seq<char>>, a: int) -> bool {
    names[a].len() > 0 && names[a][0] == 't'
}

/// Three different computers, each linked to the other two, one of them
/// with a name that begins with `t`.
pub open spec fn is_group(names: Seq<Seq<char>>, links: Seq<(usize, usize)>, a: int, b: int, c: int) -> bool {
    &&& 0 <= a < b < c < names.len()
    &&& linked(links, a, b)
    &&& linked(links, b, c)
    &&& linked(links, a, c)
    &&& (marked(names, a) || marked(names, b) || marked(names, c))
}

/// How many groups the `a`-th and the `b`-th computer form with one of
/// the first `bound` computers after them.
pub open spec fn groups_with_two(
    names: Seq<Seq<char>>,
    links: Seq<(usize, usize)>,
    a: int,
    b: int,
    bound: int,
) -> nat
    decreases bound,
{
    if bound <= 0 {
        0
    } else {
        groups_with_two(names, links, a, b, bound - 1) + if is_group(names, links, a, b, bound - 1) {
            1nat
        } else {
            0nat
        }
    }
}

/// How many groups the `a`-th computer forms with two that come after it,
/// the earlier of them among the first `bound` computers.
pub open spec fn groups_with_one(names: Seq<Seq<char>>, links: Seq<(usize, usize)>, a: int, bound: int) -> nat
    decreases bound,
{
    if bound <= 0 {
        0
    } else {
        groups_with_one(names, links, a, bound - 1) + groups_with_two(
            names,
            links,
            a,
            bound - 1,
            names.len() as int,
        )
    }
}

/// How many groups there are whose first computer is among the first
/// `bound`.
pub open spec fn groups(names: Seq<Seq<char>>, links: Seq<(usize, usize)>, bound: int) -> nat
    decreases bound,
{
    if bound <= 0 {
        0
    } else {
        groups(names, links, bound - 1) + groups_with_one(names, links, bound - 1, names.len() as int)
    }
}

proof fn lemma_groups_with_two(names: Seq<Seq<char>>, links: Seq<(usize, usize)>, a: int, b: int, bound: int)
    requires
        0 <= bound,
    ensures
        groups_with_two(names, links, a, b, bound) <= bound,
    decreases bound,
{
    if bound > 0 {
        lemma_groups_with_two(names, links, a, b, bound - 1);
    }
}

proof fn lemma_groups_with_one(names: Seq<Seq<char>>, links: Seq<(usize, usize)>, a: int, bound: int)
    requires
        0 <= bound,
    ensures
        groups_with_one(names, links, a, bound) <= bound * names.len(),
    decreases bound,
{
    if bound > 0 {
        lemma_groups_with_one(names, links, a, bound - 1);
        lemma_groups_with_two(names, links, a, bound - 1, names.len() as int);
        assert(bound * names.len() == (bound - 1) * names.len() + names.len()) by (nonlinear_arith);
    }
}

proof fn lemma_groups(names: Seq<Seq<char>>, links: Seq<(usize, usize)>, bound: int)
    requires
        0 <= bound,
    ensures
        groups(names, links, bound) <= bound * (names.len() * names.len()),
    decreases bound,
{
    if bound > 0 {
        lemma_groups(names, links, bound - 1);
        lemma_groups_with_one(names, links, bound - 1, names.len() as int);
        assert(bound * (names.len() * names.len()) == (bound - 1) * (names.len() * names.len())
            + names.len() * names.len()) by (nonlinear_arith);
    }
}

/// The most computers that a table of links is made for.
pub const MOST: usize = 0xffff_ffff;

/// Every link joins two different computers of the list, and the list is
/// no longer than `MOST`.
pub open spec fn sound(names: Seq<Seq<char>>, links: Seq<(usize, usize)>) -> bool {
    &&& names.len() <= MOST
    &&& forall|k: int|
        0 <= k < links.len() ==> (#[trigger] links[k]).0 < names.len() && links[k].1 < names.len()
            && links[k].0 != links[k].1
}

/// Whether every link joins two different computers of a list of `n`.
pub fn check_links(links: &Vec<(usize, usize)>, n: usize) -> (r: bool)
    ensures
        r <==> forall|k: int|
            0 <= k < links.len() ==> (#[trigger] links[k]).0 < n && links[k].1 < n && links[k].0
                != links[k].1,
{
    let mut k: usize = 0;
    while k < links.len()
        invariant
            k <= links.len(),
            forall|i: int|
                0 <= i < k ==> (#[trigger] links[i]).0 < n && links[i].1 < n && links[i].0 != links[i].1,
        decreases links.len() - k,
    {
        let (a, b) = links[k];
        if a >= n || b >= n || a == b {
            return false;
        }
        k += 1;
    }
    true
}

/// The table of the links: for every two computers, whether a link joins
/// them.
pub fn link_table(links: &Vec<(usize, usize)>, n: usize) -> (table: Vec<Vec<bool>>)
    requires
        forall|k: int| 0 <= k < links.len() ==> (#[trigger] links[k]).0 < n && links[k].1 < n,
    ensures
        table.len() == n,
        forall|a: int| 0 <= a < n ==> (#[trigger] table[a]).len() == n,
        forall|a: int, b: int| 0 <= a < n && 0 <= b < n ==> (#[trigger] table[a][b] <==> linked(links@, a, b)),
{
    let mut table = blank_marks(n, n);
    let mut k: usize = 0;
    while k < links.len()
        invariant
            k <= links.len(),
            forall|i: int| 0 <= i < links.len() ==> (#[trigger] links[i]).0 < n && links[i].1 < n,
            views(table@).len() == n,
            forall|a: int| 0 <= a < n ==> (#[trigger] views(table@)[a]).len() == n,
            forall|a: int, b: int|
                0 <= a < n && 0 <= b < n ==> (#[trigger] views(table@)[a][b] <==> exists|i: int|
                    i < k && #[trigger] link_is(links@, i, a, b)),
        decreases links.len() - k,
    {
        let (x, y) = links[k];
        let ghost before = views(table@);
        set_mark(&mut table, x as i128, y as i128);
        let ghost mid = views(table@);
        set_mark(&mut table, y as i128, x as i128);
        proof {
            let now = views(table@);
            assert forall|a: int, b: int| 0 <= a < n && 0 <= b < n implies (#[trigger] now[a][b]
                <==> exists|i: int| i < k + 1 && #[trigger] link_is(links@, i, a, b)) by {
                assert(mid[a][b] <==> before[a][b] || (b == x && a == y));
                assert(now[a][b] <==> mid[a][b] || (b == y && a == x));
                assert(link_is(links@, k as int, a, b) <==> (a == x && b == y) || (a == y && b == x));
                if before[a][b] {
                    let i = choose|i: int| i < k && #[trigger] link_is(links@, i, a, b);
                    assert(i < k + 1 && link_is(links@, i, a, b));
                }
                if exists|i: int| i < k + 1 && #[trigger] link_is(links@, i, a, b) {
                    let i = choose|i: int| i < k + 1 && #[trigger] link_is(links@, i, a, b);
                    if i != k {
                        assert(i < k && link_is(links@, i, a, b));
                    }
                }
            }
        }
        k += 1;
    }
    proof {
        assert forall|a: int, b: int| 0 <= a < n && 0 <= b < n implies (#[trigger] table[a][b] <==> linked(
            links@,
            a,
            b,
        )) by {
            assert(table[a][b] == views(table@)[a][b]);
            if linked(links@, a, b) {
                let i = choose|i: int| #[trigger] link_is(links@, i, a, b);
                assert(i < k && link_is(links@, i, a, b));
            }
            if views(table@)[a][b] {
                let i = choose|i: int| i < k && #[trigger] link_is(links@, i, a, b);
                assert(link_is(links@, i, a, b));
            }
        }
        assert forall|a: int| 0 <= a < n implies (#[trigger] table[a]).len() == n by {
            assert(views(table@)[a] == table[a]@);
        }
    }
    table
}

/// How many groups of three computers there are, each linked to the other
/// two, in which some name begins with `t`. `None` where a link joins a
/// computer to itself or to none of the list, or the list is longer than
/// `MOST`.
pub fn count_groups(names: &Vec<Vec<char>>, links: &Vec<(usize, usize)>) -> (r: Option<u128>)
    ensures
        r is Some <==> sound(views(names@), links@),
        r is Some ==> r.unwrap() == groups(views(names@), links@, names.len() as int),
{
    let n = names.len();
    if n > MOST || !check_links(links, n) {
        return None;
    }
    let ghost ns = views(names@);
    let ghost ls = links@;
    let table = link_table(links, n);
    let mut flags: Vec<bool> = Vec::new();
    let mut i: usize = 0;
    while i < n
        invariant
            i <= n,
            n == names.len(),
            ns == views(names@),
            flags.len() == i,
            forall|k: int| 0 <= k < i ==> flags[k] == marked(ns, k),
        decreases n - i,
    {
        let name = &names[i];
        assert(ns[i as int] == name@);
        flags.push(name.len() > 0 && name[0] == 't');
        i += 1;
    }
    let mut total: u128 = 0;
    let mut a: usize = 0;
    while a < n
        invariant
            a <= n,
            n == names.len(),
            n <= MOST,
            ns == views(names@),
            ns.len() == n,
            ls == links@,
            flags.len() == n,
            forall|k: int| 0 <= k < n ==> flags[k] == marked(ns, k),
            table.len() == n,
            forall|x: int| 0 <= x < n ==> (#[trigger] table[x]).len() == n,
            forall|x: int, y: int| 0 <= x < n && 0 <= y < n ==> (#[trigger] table[x][y] <==> linked(ls, x, y)),
            total == groups(ns, ls, a as int),
        decreases n - a,
    {
        let mut with_a: u128 = 0;
        let mut b: usize = 0;
        while b < n
            invariant
                a < n,
                b <= n,
                n <= MOST,
                ns.len() == n,
                flags.len() == n,
                forall|k: int| 0 <= k < n ==> flags[k] == marked(ns, k),
                table.len() == n,
                forall|x: int| 0 <= x < n ==> (#[trigger] table[x]).len() == n,
                forall|x: int, y: int|
                    0 <= x < n && 0 <= y < n ==> (#[trigger] table[x][y] <==> linked(ls, x, y)),
                with_a == groups_with_one(ns, ls, a as int, b as int),
            decreases n - b,
        {
            let mut with_b: u128 = 0;
            let mut c: usize = 0;
            while c < n
                invariant
                    a < n,
                    b < n,
                    c <= n,
                    ns.len() == n,
                    flags.len() == n,
                    forall|k: int| 0 <= k < n ==> flags[k] == marked(ns, k),
                    table.len() == n,
                    forall|x: int| 0 <= x < n ==> (#[trigger] table[x]).len() == n,
                    forall|x: int, y: int|
                        0 <= x < n && 0 <= y < n ==> (#[trigger] table[x][y] <==> linked(ls, x, y)),
                    with_b == groups_with_two(ns, ls, a as int, b as int, c as int),
                    with_b <= c,
                decreases n - c,
            {
                if a < b && b < c && table[a][b] && table[b][c] && table[a][c] && (flags[a] || flags[b]
                    || flags[c]) {
                    with_b += 1;
                }
                c += 1;
            }
            proof {
                lemma_groups_with_one(ns, ls, a as int, b as int);
                assert(b * n <= 0xffff_ffff * 0xffff_ffff) by (nonlinear_arith)
                    requires
                        b <= 0xffff_ffff,
                        n <= 0xffff_ffff,
                ;
            }
            with_a += with_b;
            b += 1;
        }
        proof {
            lemma_groups(ns, ls, a as int);
            lemma_groups_with_one(ns, ls, a as int, n as int);
            assert(a * (n * n) <= 0xffff_ffff * (0xffff_ffff * 0xffff_ffff) && n * n <= 0xffff_ffff
                * 0xffff_ffff) by (nonlinear_arith)
                requires
                    a <= 0xffff_ffff,
                    n <= 0xffff_ffff,
            ;
        }
        total += with_a;
        a += 1;
    }
    Some(total)
}

/// The computer `c` is linked to every member of the party.
pub open spec fn joins_all(links: Seq<(usize, usize)>, c: usize, party: Seq<usize>) -> bool {
    forall|k: int| 0 <= k < party.len() ==> linked(links, c as int, #[trigger] party[k] as int)
}

/// The party that gathers round the `i`-th computer of a visiting order,
/// as it stands when the first `j` computers have been visited: the
/// `i`-th computer itself, and each one visited after it that is linked
/// to all who were in the party by then.
pub open spec fn party(links: Seq<(usize, usize)>, order: Seq<usize>, i: int, j: int) -> Seq<usize>
    decreases j - i,
{
    if j <= i {
        Seq::empty()
    } else if j == i + 1 {
        seq![order[i]]
    } else {
        let before = party(links, order, i, j - 1);
        if joins_all(links, order[j - 1], before) {
            before.push(order[j - 1])
        } else {
            before
        }
    }
}

/// In a party, each is linked to every other.
pub proof fn lemma_party_is_clique(links: Seq<(usize, usize)>, order: Seq<usize>, i: int, j: int, x: int, y: int)
    requires
        0 <= i < j <= order.len(),
        0 <= x < y < party(links, order, i, j).len(),
    ensures
        linked(links, party(links, order, i, j)[x] as int, party(links, order, i, j)[y] as int),
    decreases j,
{
    if j > i + 1 {
        let before = party(links, order, i, j - 1);
        if y < before.len() {
            lemma_party_is_clique(links, order, i, j - 1, x, y);
        } else {
            assert(joins_all(links, order[j - 1], before));
            let k = choose|k: int| #[trigger] link_is(links, k, order[j - 1] as int, before[x] as int);
            assert(link_is(links, k, before[x] as int, order[j - 1] as int));
        }
    }
}

/// Whether the table shows a link from a computer to every member of a
/// party.
pub fn fits(table: &Vec<Vec<bool>>, c: usize, members: &Vec<usize>) -> (r: bool)
    requires
        c < table.len(),
        forall|k: int| 0 <= k < members.len() ==> members[k] < table[c as int].len(),
    ensures
        r <==> forall|k: int| 0 <= k < members.len() ==> table[c as int][#[trigger] members[k] as int],
{
    let mut k: usize = 0;
    while k < members.len()
        invariant
            k <= members.len(),
            c < table.len(),
            forall|i: int| 0 <= i < members.len() ==> members[i] < table[c as int].len(),
            forall|i: int| 0 <= i < k ==> table[c as int][#[trigger] members[i] as int],
        decreases members.len() - k,
    {
        if !table[c][members[k]] {
            return false;
        }
        k += 1;
    }
    true
}

/// The links and the visiting order speak of the first `n` computers
/// only, and `n` is no greater than `MOST`.
pub open spec fn within(links: Seq<(usize, usize)>, order: Seq<usize>, n: int) -> bool {
    &&& n <= MOST
    &&& forall|k: int| 0 <= k < links.len() ==> (#[trigger] links[k]).0 < n && links[k].1 < n
    &&& forall|k: int| 0 <= k < order.len() ==> #[trigger] order[k] < n
}

/// Gathers the parties of a visiting order: one round each computer
/// visited, joined by every computer visited later that is linked to all
/// its members.
pub fn grow_parties(links: &Vec<(usize, usize)>, n: usize, order: &Vec<usize>) -> (r: Option<
    Vec<Vec<usize>>,
>)
    ensures
        r is Some <==> within(links@, order@, n as int),
        r is Some ==> r.unwrap().len() == order.len() && forall|i: int|
            0 <= i < order.len() ==> (#[trigger] r.unwrap()[i])@ == party(
                links@,
                order@,
                i,
                order.len() as int,
            ),
{
    if n > MOST {
        return None;
    }
    let mut k: usize = 0;
    while k < links.len()
        invariant
            k <= links.len(),
            forall|i: int| 0 <= i < k ==> (#[trigger] links[i]).0 < n && links[i].1 < n,
        decreases links.len() - k,
    {
        if links[k].0 >= n || links[k].1 >= n {
            return None;
        }
        k += 1;
    }
    let mut k: usize = 0;
    while k < order.len()
        invariant
            k <= order.len(),
            forall|i: int| 0 <= i < k ==> #[trigger] order[i] < n,
        decreases order.len() - k,
    {
        if order[k] >= n {
            return None;
        }
        k += 1;
    }
    let table = link_table(links, n);
    let mut groups: Vec<Vec<usize>> = Vec::new();
    let mut j: usize = 0;
    while j < order.len()
        invariant
            j <= order.len(),
            groups.len() == j,
            table.len() == n,
            forall|a: int| 0 <= a < n ==> (#[trigger] table[a]).len() == n,
            forall|a: int, b: int| 0 <= a < n && 0 <= b < n ==> (#[trigger] table[a][b] <==> linked(links@, a, b)),
            forall|i: int| 0 <= i < order.len() ==> #[trigger] order[i] < n,
            forall|i: int| 0 <= i < j ==> (#[trigger] groups[i])@ == party(links@, order@, i, j as int),
            forall|i: int, m: int| 0 <= i < j && 0 <= m < groups[i].len() ==> (#[trigger] groups[i][m]) < n,
        decreases order.len() - j,
    {
        let c = order[j];
        let mut g: usize = 0;
        while g < groups.len()
            invariant
                g <= groups.len(),
                groups.len() == j,
                j < order.len(),
                c == order[j as int],
                c < n,
                table.len() == n,
                forall|a: int| 0 <= a < n ==> (#[trigger] table[a]).len() == n,
                forall|a: int, b: int|
                    0 <= a < n && 0 <= b < n ==> (#[trigger] table[a][b] <==> linked(links@, a, b)),
                forall|i: int| 0 <= i < g ==> (#[trigger] groups[i])@ == party(links@, order@, i, j + 1),
                forall|i: int| g <= i < j ==> (#[trigger] groups[i])@ == party(links@, order@, i, j as int),
                forall|i: int, m: int|
                    0 <= i < j && 0 <= m < groups[i].len() ==> (#[trigger] groups[i][m]) < n,
            decreases groups.len() - g,
        {
            let ghost before = groups@;
            assert(forall|m: int| 0 <= m < groups[g as int].len() ==> (#[trigger] groups[g as int][m]) < n);
            let joined = fits(&table, c, &groups[g]);
            assert(joined == joins_all(links@, c, before[g as int]@)) by {
                let members = before[g as int]@;
                assert forall|m: int| 0 <= m < members.len() implies (table[c as int][#[trigger] members[m] as int]
                    <==> linked(links@, c as int, members[m] as int)) by {
                    assert(before[g as int][m] < n);
                }
            }
            if joined {
                let mut members: Vec<usize> = Vec::new();
                groups.set_and_swap(g, &mut members);
                members.push(c);
                groups.set(g, members);
            }
            assert(groups[g as int]@ == party(links@, order@, g as int, j + 1));
            assert forall|i: int, m: int| 0 <= i < j && 0 <= m < groups[i].len() implies (
            #[trigger] groups[i][m]) < n by {
                if i != g {
                    assert(groups[i] == before[i]);
                } else if m < before[i].len() {
                    assert(groups[i][m] == before[i][m]);
                }
            }
            g += 1;
        }
        let mut alone: Vec<usize> = Vec::new();
        alone.push(c);
        assert(alone@ =~= party(links@, order@, j as int, j + 1));
        groups.push(alone);
        j += 1;
    }
    Some(groups)
}

/// The place of the last of the largest parties.
pub fn largest_party(groups: &Vec<Vec<usize>>) -> (r: Option<usize>)
    ensures
        r is None <==> groups.len() == 0,
        r is Some ==> r.unwrap() < groups.len() && (forall|k: int|
            0 <= k < groups.len() ==> (#[trigger] groups[k]).len() <= groups[r.unwrap() as int].len())
            && (forall|k: int|
            r.unwrap() < k < groups.len() ==> (#[trigger] groups[k]).len() < groups[r.unwrap() as int].len()),
{
    if groups.len() == 0 {
        return None;
    }
    let mut best: usize = 0;
    let mut k: usize = 1;
    while k < groups.len()
        invariant
            1 <= k <= groups.len(),
            best < k,
            forall|i: int| 0 <= i < k ==> (#[trigger] groups[i]).len() <= groups[best as int].len(),
            forall|i: int| best < i < k ==> (#[trigger] groups[i]).len() < groups[best as int].len(),
        decreases groups.len() - k,
    {
        if groups[k].len() >= groups[best].len() {
            best = k;
        }
        k += 1;
    }
    Some(best)
}

/// A sequence of computers, each linked to the next.
pub open spec fn is_chain(links: Seq<(usize, usize)>, w: Seq<usize>) -> bool {
    &&& w.len() > 0
    &&& forall|i: int| 0 <= i < w.len() - 1 ==> #[trigger] chain_step(links, w, i)
}

/// The `i`-th computer of `w` is linked to the next.
pub open spec fn chain_step(links: Seq<(usize, usize)>, w: Seq<usize>, i: int) -> bool {
    linked(links, w[i] as int, w[i + 1] as int)
}

/// The computer `c` is one of `keys` or joined to one of them by a chain
/// of links.
pub open spec fn from_keys(links: Seq<(usize, usize)>, keys: Seq<usize>, c: usize) -> bool {
    exists|w: Seq<usize>| #[trigger] is_chain(links, w) && keys.contains(w[0]) && w.last() == c
}

/// A computer linked to one that is joined to the keys is joined to them.
pub proof fn lemma_from_keys_on(links: Seq<(usize, usize)>, keys: Seq<usize>, a: usize, b: usize)
    requires
        from_keys(links, keys, a),
        linked(links, a as int, b as int),
    ensures
        from_keys(links, keys, b),
{
    let w = choose|w: Seq<usize>| #[trigger] is_chain(links, w) && keys.contains(w[0]) && w.last() == a;
    let v = w.push(b);
    assert forall|i: int| 0 <= i < v.len() - 1 implies #[trigger] chain_step(links, v, i) by {
        if i < w.len() - 1 {
            assert(chain_step(links, w, i));
        }
    }
    assert(is_chain(links, v) && keys.contains(v[0]) && v.last() == b);
}

/// The marks show what was visited: computers below `n`, each once.
pub open spec fn tracks(seen: Seq<Seq<bool>>, order: Seq<usize>, n: int) -> bool {
    &&& seen.len() == 1
    &&& seen[0].len() == n
    &&& forall|c: int| 0 <= c < n ==> (#[trigger] seen[0][c] <==> order.contains(c as usize))
    &&& order.no_duplicates()
    &&& forall|i: int| 0 <= i < order.len() ==> #[trigger] order[i] < n
    &&& marked_in_rows(seen, 1) == order.len()
}

/// What is linked to a visited computer is visited or waits on the stack.
pub open spec fn followed(links: Seq<(usize, usize)>, order: Seq<usize>, stack: Seq<usize>) -> bool {
    forall|i: int, b: int|
        0 <= i < order.len() && #[trigger] linked(links, order[i] as int, b) ==> order.contains(b as usize)
            || stack.contains(b as usize)
}

/// Visits a computer: marks it and puts it last among the visited.
fn visit_computer(seen: &mut Vec<Vec<bool>>, order: &mut Vec<usize>, c: usize, n: usize)
    requires
        tracks(views(old(seen)@), old(order)@, n as int),
        c < n,
        !views(old(seen)@)[0][c as int],
    ensures
        tracks(views(final(seen)@), final(order)@, n as int),
        final(order)@ == old(order)@.push(c),
        final(order)@.len() <= n,
{
    let ghost a = views(seen@);
    let ghost v = order@;
    set_mark(seen, c as i128, 0);
    order.push(c);
    proof {
        let b = views(seen@);
        let w = order@;
        lemma_rows_plus(a, b, (c as int, 0), 1);
        assert forall|x: int| 0 <= x < n implies (#[trigger] b[0][x] <==> w.contains(x as usize)) by {
            assert(a[0][x] <==> v.contains(x as usize));
            assert(b[0][x] <==> a[0][x] || x == c);
            if v.contains(x as usize) {
                let i = choose|i: int| 0 <= i < v.len() && v[i] == x as usize;
                assert(w[i] == x as usize);
            }
            if x == c {
                assert(w[v.len() as int] == c);
            }
        }
        assert(!v.contains(c));
        assert forall|i: int, j: int| 0 <= i < w.len() && 0 <= j < w.len() && i != j implies w[i]
            != w[j] by {
            if i < v.len() && j < v.len() {
                assert(v[i] != v[j]);
            } else if i < v.len() {
                assert(v.contains(v[i]));
            } else {
                assert(v.contains(v[j]));
            }
        }
        assert(forall|y: int| 0 <= y < b.len() ==> (#[trigger] b[y]).len() == n);
        lemma_marked_rows_bound(b, 1, n as int);
    }
}

/// Lets every computer linked to `c` wait on the stack, in the order of
/// their places.
fn push_linked(table: &Vec<Vec<bool>>, stack: &mut Vec<usize>, c: usize, links: Ghost<Seq<(usize, usize)>>)
    requires
        c < table.len(),
        forall|a: int| 0 <= a < table.len() ==> (#[trigger] table[a]).len() == table.len(),
        forall|a: int, b: int|
            0 <= a < table.len() && 0 <= b < table.len() ==> (#[trigger] table[a][b] <==> linked(links@, a, b)),
    ensures
        final(stack)@.len() >= old(stack)@.len(),
        final(stack)@.take(old(stack)@.len() as int) == old(stack)@,
        forall|j: int|
            old(stack)@.len() <= j < final(stack)@.len() ==> (#[trigger] final(stack)@[j]) < table.len()
                && linked(links@, c as int, final(stack)@[j] as int),
        forall|b: int|
            0 <= b < table.len() && #[trigger] linked(links@, c as int, b) ==> final(stack)@.contains(
                b as usize,
            ),
{
    let n = table.len();
    let ghost s0 = stack@;
    let mut b: usize = 0;
    assert(stack@.take(s0.len() as int) =~= s0);
    while b < n
        invariant
            b <= n,
            n == table.len(),
            c < n,
            forall|a: int| 0 <= a < table.len() ==> (#[trigger] table[a]).len() == table.len(),
            forall|a: int, x: int|
                0 <= a < table.len() && 0 <= x < table.len() ==> (#[trigger] table[a][x] <==> linked(
                    links@,
                    a,
                    x,
                )),
            stack@.len() >= s0.len(),
            stack@.take(s0.len() as int) == s0,
            forall|j: int|
                s0.len() <= j < stack@.len() ==> (#[trigger] stack@[j]) < n && linked(
                    links@,
                    c as int,
                    stack@[j] as int,
                ),
            forall|x: int| 0 <= x < b && #[trigger] linked(links@, c as int, x) ==> stack@.contains(x as usize),
        decreases n - b,
    {
        let ghost before = stack@;
        if table[c][b] {
            stack.push(b);
            assert(stack@.take(s0.len() as int) =~= s0);
            assert(stack@[before.len() as int] == b);
        }
        proof {
            assert forall|x: int| 0 <= x < b + 1 && #[trigger] linked(links@, c as int, x) implies stack@.contains(
                x as usize,
            ) by {
                if x < b {
                    let j = choose|j: int| 0 <= j < before.len() && before[j] == x as usize;
                    assert(stack@[j] == x as usize);
                }
            }
        }
        b += 1;
    }
}

/// The order in which the computers are visited: the last key first, and
/// after each computer those linked to it, the one with the last place
/// first, before the keys that still wait. Every computer is visited
/// once. There is no order where a link or a key speaks of a computer
/// that is not among the first `n`, or `n` is greater than `MOST`.
pub fn visiting_order(links: &Vec<(usize, usize)>, n: usize, keys: &Vec<usize>) -> (r: Option<Vec<usize>>)
    ensures
        r is Some <==> within(links@, keys@, n as int),
        r is Some ==> r.unwrap()@.no_duplicates() && (forall|c: usize| #[trigger]
            r.unwrap()@.contains(c) <==> from_keys(links@, keys@, c)) && (keys.len() > 0
            ==> r.unwrap()@.len() > 0 && r.unwrap()@[0] == keys@.last()),
{
    if n > MOST {
        return None;
    }
    let mut k: usize = 0;
    while k < links.len()
        invariant
            k <= links.len(),
            forall|i: int| 0 <= i < k ==> (#[trigger] links[i]).0 < n && links[i].1 < n,
        decreases links.len() - k,
    {
        if links[k].0 >= n || links[k].1 >= n {
            return None;
        }
        k += 1;
    }
    let mut stack: Vec<usize> = Vec::new();
    let mut k: usize = 0;
    while k < keys.len()
        invariant
            k <= keys.len(),
            forall|i: int| 0 <= i < k ==> #[trigger] keys[i] < n,
            stack@ == keys@.take(k as int),
        decreases keys.len() - k,
    {
        if keys[k] >= n {
            return None;
        }
        stack.push(keys[k]);
        assert(stack@ =~= keys@.take(k + 1));
        k += 1;
    }
    assert(keys@.take(keys.len() as int) =~= keys@);
    let table = link_table(links, n);
    let mut seen = blank_marks(1, n);
    let mut order: Vec<usize> = Vec::new();
    proof {
        let b = views(seen@);
        crate::regions::lemma_no_marks(b, 1);
        assert forall|c: usize| stack@.contains(c) implies from_keys(links@, keys@, c) by {
            let w = seq![c];
            assert(is_chain(links@, w) && keys@.contains(w[0]) && w.last() == c);
        }
    }
    while stack.len() > 0
        invariant
            n <= MOST,
            table.len() == n,
            forall|a: int| 0 <= a < n ==> (#[trigger] table[a]).len() == n,
            forall|a: int, b: int| 0 <= a < n && 0 <= b < n ==> (#[trigger] table[a][b] <==> linked(links@, a, b)),
            forall|i: int| 0 <= i < links.len() ==> (#[trigger] links[i]).0 < n && links[i].1 < n,
            tracks(views(seen@), order@, n as int),
            order@.len() <= n,
            forall|j: int| 0 <= j < stack@.len() ==> #[trigger] stack@[j] < n,
            forall|c: usize| #[trigger] stack@.contains(c) ==> from_keys(links@, keys@, c),
            forall|c: usize| #[trigger] order@.contains(c) ==> from_keys(links@, keys@, c),
            followed(links@, order@, stack@),
            forall|c: usize| #[trigger] keys@.contains(c) ==> order@.contains(c) || stack@.contains(c),
            order@.len() == 0 ==> stack@ == keys@,
            order@.len() > 0 ==> keys.len() > 0 && order@[0] == keys@.last(),
        decreases n - order@.len(), stack@.len(),
    {
        let ghost stack0 = stack@;
        let ghost order0 = order@;
        let c = stack.pop().unwrap();
        let ghost stack1 = stack@;
        proof {
            crate::maze::tiles::lemma_pop_contains(stack0);
            assert(stack0.contains(c));
            assert(c == stack0[stack0.len() - 1]);
            assert(views(seen@)[0] == seen@[0]@);
        }
        proof {
            assert forall|x: usize| stack1.contains(x) implies stack0.contains(x) by {
                let j = choose|j: int| 0 <= j < stack1.len() && stack1[j] == x;
                assert(stack0[j] == x);
            }
            assert(from_keys(links@, keys@, c));
        }
        if seen[0][c] {
            proof {
                assert(order0.contains(c));
                assert forall|i: int, b: int|
                    0 <= i < order0.len() && #[trigger] linked(links@, order0[i] as int, b) implies order0.contains(
                    b as usize,
                ) || stack1.contains(b as usize) by {
                    if !order0.contains(b as usize) {
                        assert(stack0.contains(b as usize));
                        let j = choose|j: int| 0 <= j < stack0.len() && stack0[j] == b as usize;
                        if j < stack1.len() {
                            assert(stack1[j] == b as usize);
                        }
                    }
                }
                assert forall|x: usize| #[trigger] keys@.contains(x) implies order0.contains(x) || stack1.contains(
                    x,
                ) by {
                    if !order0.contains(x) {
                        assert(stack0.contains(x));
                        let j = choose|j: int| 0 <= j < stack0.len() && stack0[j] == x;
                        if j < stack1.len() {
                            assert(stack1[j] == x);
                        }
                    }
                }
            }
        } else {
            visit_computer(&mut seen, &mut order, c, n);
            push_linked(&table, &mut stack, c, Ghost(links@));
            proof {
                crate::maze::tiles::lemma_push_contains(order0, c);
                let fin = stack@;
                assert forall|x: usize| stack1.contains(x) implies fin.contains(x) by {
                    let j = choose|j: int| 0 <= j < stack1.len() && stack1[j] == x;
                    assert(fin[j] == fin.take(stack1.len() as int)[j]);
                }
                assert forall|j: int| 0 <= j < fin.len() implies #[trigger] fin[j] < n by {
                    if j < stack1.len() {
                        assert(fin[j] == fin.take(stack1.len() as int)[j]);
                        assert(stack1[j] == stack0[j]);
                    }
                }
                assert forall|x: usize| #[trigger] fin.contains(x) implies from_keys(links@, keys@, x) by {
                    let j = choose|j: int| 0 <= j < fin.len() && fin[j] == x;
                    if j < stack1.len() {
                        assert(fin[j] == fin.take(stack1.len() as int)[j]);
                        assert(stack1[j] == x);
                        assert(stack1.contains(x));
                        assert(stack0.contains(x));
                    } else {
                        assert(linked(links@, c as int, fin[j] as int));
                        lemma_from_keys_on(links@, keys@, c, x);
                    }
                }
                assert forall|i: int, b: int|
                    0 <= i < order@.len() && #[trigger] linked(links@, order@[i] as int, b) implies order@.contains(
                    b as usize,
                ) || fin.contains(b as usize) by {
                    if i < order0.len() {
                        assert(order@[i] == order0[i]);
                        assert(linked(links@, order0[i] as int, b));
                    } else {
                        let kk = choose|kk: int| #[trigger] link_is(links@, kk, c as int, b);
                        assert(0 <= b < n);
                    }
                }
            }
        }
    }
    proof {
        let fin = order@;
        assert forall|c: usize| from_keys(links@, keys@, c) implies fin.contains(c) by {
            let w = choose|w: Seq<usize>| #[trigger] is_chain(links@, w) && keys@.contains(w[0]) && w.last() == c;
            lemma_chain_visited(links@, fin, w, w.len() - 1);
        }
    }
    Some(order)
}

/// Where what is linked to a visited computer is visited, every computer
/// of a chain that begins with a visited one is visited.
pub proof fn lemma_chain_visited(links: Seq<(usize, usize)>, order: Seq<usize>, w: Seq<usize>, i: int)
    requires
        followed(links, order, Seq::empty()),
        is_chain(links, w),
        order.contains(w[0]),
        0 <= i < w.len(),
    ensures
        order.contains(w[i]),
    decreases i,
{
    if i > 0 {
        lemma_chain_visited(links, order, w, i - 1);
        assert(chain_step(links, w, i - 1));
        let j = choose|j: int| 0 <= j < order.len() && order[j] == w[i - 1];
        assert(linked(links, order[j] as int, w[i] as int));
        assert(!Seq::<usize>::empty().contains(w[i]));
    }
}

} // verus!
