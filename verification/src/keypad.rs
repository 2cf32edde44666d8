//! Robots that type on keypads by pressing the buttons of other keypads:
//! the shortest ways between two buttons, and the shortest sequence that a
//! chain of robots must be given.

use itertools::Itertools;
use vstd::prelude::*;
use crate::maze::table::slot;
use crate::text::views;

verus! {

/// A keypad: its buttons and, for each button, the buttons beside it with
/// the direction that leads there.
pub struct Keypad {
    pub buttons: Vec<char>,
    pub edges: Vec<Vec<(char, char)>>,
}

/// The mathematical model of a keypad.
pub ghost struct Pad {
    pub buttons: Seq<char>,
    pub edges: Seq<Seq<(char, char)>>,
}

impl View for Keypad {
    type V = Pad;

    open spec fn view(&self) -> Pad {
        Pad { buttons: self.buttons@, edges: views(self.edges@) }
    }
}

/// The place of a button among the first `n` buttons of a keypad: the last
/// place where it stands.
pub open spec fn index_of(buttons: Seq<char>, b: char, n: int) -> Option<int>
    decreases n,
{
    if n <= 0 {
        None
    } else if buttons[n - 1] == b {
        Some(n - 1)
    } else {
        index_of(buttons, b, n - 1)
    }
}

/// The buttons beside a button, if the keypad has the button.
pub open spec fn beside(pad: Pad, b: char) -> Option<Seq<(char, char)>> {
    match index_of(pad.buttons, b, pad.buttons.len() as int) {
        Some(i) => if i < pad.edges.len() {
            Some(pad.edges[i])
        } else {
            None
        },
        None => None,
    }
}

/// Every one of the ways with `c` put before it.
pub open spec fn led_by(c: char, ways: Seq<Seq<char>>) -> Seq<Seq<char>> {
    Seq::new(ways.len(), |i: int| seq![c] + ways[i])
}

/// The ways of exactly `d` presses from the button `s` to the button `e`
/// that do not pass `e` before their end, as sequences of directions;
/// nothing if a button on a way is not on the keypad.
pub open spec fn ways(pad: Pad, s: char, e: char, d: nat) -> Option<Seq<Seq<char>>>
    decreases d, 1int, 0int,
{
    if s == e {
        Some(if d == 0 {
            seq![Seq::<char>::empty()]
        } else {
            Seq::empty()
        })
    } else if d == 0 {
        Some(Seq::empty())
    } else {
        match beside(pad, s) {
            None => None,
            Some(es) => ways_via(pad, es, es.len() as int, e, d),
        }
    }
}

/// The ways of exactly `d` presses that begin with one of the first `k`
/// steps of `es`.
pub open spec fn ways_via(pad: Pad, es: Seq<(char, char)>, k: int, e: char, d: nat) -> Option<
    Seq<Seq<char>>,
>
    decreases d, 0int, k,
{
    if k <= 0 || d == 0 {
        Some(Seq::empty())
    } else {
        match (ways_via(pad, es, k - 1, e, d), ways(pad, es[k - 1].0, e, (d - 1) as nat)) {
            (Some(front), Some(rest)) => Some(front + led_by(es[k - 1].1, rest)),
            _ => None,
        }
    }
}

/// The shortest ways from `s` to `e` among those of `d` to `limit`
/// presses: the ways of the least number of presses for which there are
/// any; none if there are none.
pub open spec fn shortest_from(pad: Pad, s: char, e: char, d: nat, limit: nat) -> Option<Seq<Seq<char>>>
    decreases limit + 1 - d,
{
    if d > limit {
        Some(Seq::empty())
    } else {
        match ways(pad, s, e, d) {
            None => None,
            Some(w) => if w.len() > 0 {
                Some(w)
            } else {
                shortest_from(pad, s, e, d + 1, limit)
            },
        }
    }
}

/// The shortest ways from `s` to `e` of fewer presses than the keypad has
/// buttons.
pub open spec fn shortest(pad: Pad, s: char, e: char) -> Option<Seq<Seq<char>>> {
    shortest_from(pad, s, e, 0, pad.buttons.len())
}

/// The place of a button on the keypad.
pub fn find_button(buttons: &Vec<char>, b: char) -> (r: Option<usize>)
    ensures
        match r {
            Some(i) => index_of(buttons@, b, buttons.len() as int) == Some(i as int) && i < buttons.len(),
            None => index_of(buttons@, b, buttons.len() as int) is None,
        },
{
    let mut n: usize = buttons.len();
    while n > 0
        invariant
            n <= buttons.len(),
            index_of(buttons@, b, buttons.len() as int) == index_of(buttons@, b, n as int),
        decreases n,
    {
        if buttons[n - 1] == b {
            return Some(n - 1);
        }
        n -= 1;
    }
    None
}

/// The ways of exactly `d` presses from `s` to `e`.
pub fn ways_of(pad: &Keypad, s: char, e: char, d: usize) -> (r: Option<Vec<Vec<char>>>)
    ensures
        match r {
            Some(w) => ways(pad@, s, e, d as nat) == Some(views(w@)),
            None => ways(pad@, s, e, d as nat) is None,
        },
    decreases d,
{
    let mut found: Vec<Vec<char>> = Vec::new();
    if s == e {
        if d == 0 {
            found.push(Vec::new());
            assert(views(found@) =~= seq![Seq::<char>::empty()]);
        } else {
            assert(views(found@) =~= Seq::<Seq<char>>::empty());
        }
        return Some(found);
    }
    if d == 0 {
        assert(views(found@) =~= Seq::<Seq<char>>::empty());
        return Some(found);
    }
    let i = match find_button(&pad.buttons, s) {
        Some(i) => i,
        None => {
            return None;
        },
    };
    if i >= pad.edges.len() {
        return None;
    }
    let es = &pad.edges[i];
    assert(pad@.edges[i as int] == es@);
    let mut k: usize = 0;
    assert(views(found@) =~= Seq::<Seq<char>>::empty());
    while k < es.len()
        invariant
            k <= es.len(),
            d > 0,
            s != e,
            beside(pad@, s) == Some(es@),
            ways_via(pad@, es@, k as int, e, d as nat) == Some(views(found@)),
        decreases es.len() - k,
    {
        let (next, dir) = es[k];
        let rest = match ways_of(pad, next, e, d - 1) {
            Some(w) => w,
            None => {
                proof {
                    assert(ways_via(pad@, es@, k + 1, e, d as nat) is None);
                    lemma_ways_via_stuck(pad@, es@, k + 1, es.len() as int, e, d as nat);
                }
                return None;
            },
        };
        let ghost before = views(found@);
        let mut j: usize = 0;
        while j < rest.len()
            invariant
                j <= rest.len(),
                views(found@) == before + led_by(dir, views(rest@)).take(j as int),
            decreases rest.len() - j,
        {
            let mut way: Vec<char> = Vec::new();
            way.push(dir);
            let tail = &rest[j];
            let mut t: usize = 0;
            while t < tail.len()
                invariant
                    t <= tail.len(),
                    way@ == seq![dir] + tail@.take(t as int),
                decreases tail.len() - t,
            {
                way.push(tail[t]);
                assert(way@ =~= seq![dir] + tail@.take(t + 1));
                t += 1;
            }
            proof {
                assert(tail@.take(tail.len() as int) =~= tail@);
                crate::text::lemma_views_push(found@, way);
                assert(views(rest@)[j as int] == tail@);
                assert(before + led_by(dir, views(rest@)).take(j + 1) =~= (before + led_by(
                    dir,
                    views(rest@),
                ).take(j as int)).push(way@));
            }
            found.push(way);
            j += 1;
        }
        proof {
            assert(led_by(dir, views(rest@)).take(rest.len() as int) =~= led_by(dir, views(rest@)));
        }
        k += 1;
    }
    Some(found)
}

/// No ways are found if the ways through an earlier step cannot be found.
pub proof fn lemma_ways_via_stuck(pad: Pad, es: Seq<(char, char)>, a: int, b: int, e: char, d: nat)
    requires
        a <= b,
        ways_via(pad, es, a, e, d) is None,
    ensures
        ways_via(pad, es, b, e, d) is None,
    decreases b - a,
{
    if a < b {
        lemma_ways_via_stuck(pad, es, a, b - 1, e, d);
    }
}

/// All shortest ways from `start` to `end`, each as the directions to
/// press; nothing if a button on a way is not on the keypad.
pub fn find_shortest_paths(neighbors: &Keypad, start: char, end: char) -> (r: Option<Vec<Vec<char>>>)
    ensures
        match r {
            Some(paths) => shortest(neighbors@, start, end) == Some(views(paths@)),
            None => shortest(neighbors@, start, end) is None,
        },
{
    let limit = neighbors.buttons.len();
    let mut d: usize = 0;
    loop
        invariant
            d <= limit,
            limit == neighbors.buttons.len(),
            shortest(neighbors@, start, end) == shortest_from(
                neighbors@,
                start,
                end,
                d as nat,
                limit as nat,
            ),
        decreases limit - d,
    {
        match ways_of(neighbors, start, end, d) {
            None => {
                return None;
            },
            Some(w) => {
                if w.len() > 0 {
                    return Some(w);
                }
            },
        }
        if d == limit {
            let none: Vec<Vec<char>> = Vec::new();
            assert(views(none@) =~= Seq::<Seq<char>>::empty());
            assert(shortest_from(neighbors@, start, end, (limit + 1) as nat, limit as nat) == Some(
                Seq::<Seq<char>>::empty(),
            ));
            return Some(none);
        }
        d += 1;
    }
}

/// All pairs of the keys, by `Itertools::cartesian_product` of the keys
/// with themselves: the pairs whose first part is the first key come first,
/// in the order of their second parts, then those of the second key, and so
/// on.
#[verifier::external_body]
fn all_pairs(keys: &Vec<char>) -> (r: Vec<(char, char)>)
    requires
        keys.len() * keys.len() <= 0x0fff_ffff,
    ensures
        r@.len() == keys.len() * keys.len(),
        forall|i: int, j: int|
            0 <= i < keys.len() && 0 <= j < keys.len() ==> r@[#[trigger] slot(keys.len() as int, j, i)]
                == (keys@[i], keys@[j]),
{
    keys.iter().cartesian_product(keys.iter()).map(|(&a, &b)| (a, b)).collect()
}

/// The pairs of neighbours in a row of characters, by
/// `Itertools::tuple_windows`: the first with the second, the second with
/// the third, and so on.
#[verifier::external_body]
fn neighbours_in_row(chars: &Vec<char>) -> (r: Vec<(char, char)>)
    ensures
        r@.len() == (if chars.len() >= 1 {
            chars.len() - 1
        } else {
            0
        }),
        forall|i: int| 0 <= i < r@.len() ==> #[trigger] r@[i] == (chars@[i], chars@[i + 1]),
{
    chars.iter().copied().tuple_windows().collect()
}

/// The shortest ways between all pairs of buttons of a keypad.
pub struct PathTable {
    pub keys: Vec<(char, char)>,
    pub paths: Vec<Vec<Vec<char>>>,
}

/// The ways that a table holds, as sequences.
pub open spec fn table_paths(t: &PathTable, k: int) -> Seq<Seq<char>> {
    views(t.paths@[k]@)
}

/// The table holds the shortest ways between all pairs of buttons of the
/// keypad, for every pair at least one.
pub open spec fn table_of(t: &PathTable, pad: Pad) -> bool {
    &&& t.keys.len() == pad.buttons.len() * pad.buttons.len()
    &&& t.paths.len() == t.keys.len()
    &&& forall|i: int, j: int|
        0 <= i < pad.buttons.len() && 0 <= j < pad.buttons.len() ==> t.keys@[#[trigger] slot(
            pad.buttons.len() as int,
            j,
            i,
        )] == (pad.buttons[i], pad.buttons[j])
    &&& forall|k: int|
        0 <= k < t.keys.len() ==> shortest(pad, t.keys@[k].0, t.keys@[k].1) == Some(
            #[trigger] table_paths(t, k),
        ) && table_paths(t, k).len() > 0
}

/// The shortest ways between all pairs of buttons of a keypad; none where it has
/// more than `MOST_BUTTONS` buttons, or from some button no way leads to another.
pub fn all_shortest_paths(pad: &Keypad) -> (r: Option<PathTable>)
    ensures
        match r {
            Some(t) => table_of(&t, pad@),
            None => pad.buttons.len() > MOST_BUTTONS || stranded(pad@),
        },
        r is Some ==> pad.buttons.len() <= MOST_BUTTONS && !stranded(pad@),
{
    let n = pad.buttons.len();
    if n > MOST_BUTTONS {
        return None;
    }
    assert(n * n <= 0x0fff_ffff) by (nonlinear_arith)
        requires
            n <= 0x3fff,
    ;
    let keys = all_pairs(&pad.buttons);
    let mut paths: Vec<Vec<Vec<char>>> = Vec::new();
    let mut k: usize = 0;
    while k < keys.len()
        invariant
            k <= keys.len(),
            n == pad.buttons.len(),
            keys.len() == n * n,
            forall|i: int, j: int|
                0 <= i < n && 0 <= j < n ==> keys@[#[trigger] slot(n as int, j, i)] == (
                    pad.buttons@[i],
                    pad.buttons@[j],
                ),
            paths.len() == k,
            forall|h: int|
                0 <= h < k ==> shortest(pad@, keys@[h].0, keys@[h].1) == Some(
                    #[trigger] views(paths@[h]@),
                ) && views(paths@[h]@).len() > 0,
        decreases keys.len() - k,
    {
        let (a, b) = keys[k];
        proof {
            let at = lemma_slot_parts(n as int, k as int);
            assert(keys@[slot(n as int, at.1, at.0)] == (pad.buttons@[at.0], pad.buttons@[at.1]));
            assert(a == pad@.buttons[at.0] && b == pad@.buttons[at.1]);
            if no_way(pad@, a, b) {
                assert(no_way(pad@, pad@.buttons[at.0], pad@.buttons[at.1]));
                assert(stranded(pad@));
            }
        }
        match find_shortest_paths(pad, a, b) {
            Some(p) => {
                if p.len() == 0 {
                    return None;
                }
                paths.push(p);
            },
            None => {
                return None;
            },
        }
        k += 1;
    }
    let t = PathTable { keys, paths };
    proof {
        assert forall|k: int| 0 <= k < t.keys.len() implies shortest(pad@, t.keys@[k].0, t.keys@[k].1)
            == Some(#[trigger] table_paths(&t, k)) && table_paths(&t, k).len() > 0 by {
            assert(views(t.paths@[k]@).len() > 0);
        }
        lemma_table_shows_ways(&t, pad@);
    }
    Some(t)
}

/// The keypad with the numbers.
pub fn numeric_keypad() -> (pad: Keypad)
    ensures
        pad@ == numeric_pad(),
        pad.buttons@ == seq!['7', '8', '9', '4', '5', '6', '1', '2', '0', '3', 'A'],
        pad.edges.len() == 11,
{
    let buttons = vec!['7', '8', '9', '4', '5', '6', '1', '2', '0', '3', 'A'];
    let edges = vec![
        vec![('4', 'v'), ('8', '>')],
        vec![('5', 'v'), ('9', '>'), ('7', '<')],
        vec![('6', 'v'), ('8', '<')],
        vec![('1', 'v'), ('5', '>'), ('7', '^')],
        vec![('2', 'v'), ('6', '>'), ('4', '<'), ('8', '^')],
        vec![('3', 'v'), ('5', '<'), ('9', '^')],
        vec![('2', '>'), ('4', '^')],
        vec![('3', '>'), ('5', '^'), ('1', '<'), ('0', 'v')],
        vec![('2', '^'), ('A', '>')],
        vec![('6', '^'), ('2', '<'), ('A', 'v')],
        vec![('0', '<'), ('3', '^')],
    ];
    proof {
        let rows = views(edges@);
        let wanted = numeric_pad().edges;
        assert(rows[0] =~= wanted[0]);
        assert(rows[1] =~= wanted[1]);
        assert(rows[2] =~= wanted[2]);
        assert(rows[3] =~= wanted[3]);
        assert(rows[4] =~= wanted[4]);
        assert(rows[5] =~= wanted[5]);
        assert(rows[6] =~= wanted[6]);
        assert(rows[7] =~= wanted[7]);
        assert(rows[8] =~= wanted[8]);
        assert(rows[9] =~= wanted[9]);
        assert(rows[10] =~= wanted[10]);
        assert(rows =~= wanted);
        assert(buttons@ =~= numeric_pad().buttons);
    }
    Keypad { buttons, edges }
}

/// The keypad with the directions.
pub fn direction_keypad() -> (pad: Keypad)
    ensures
        pad@ == direction_pad(),
        pad.buttons@ == seq!['^', 'A', '>', '<', 'v'],
        pad.edges.len() == 5,
{
    let buttons = vec!['^', 'A', '>', '<', 'v'];
    let edges = vec![
        vec![('A', '>'), ('v', 'v')],
        vec![('^', '<'), ('>', 'v')],
        vec![('A', '^'), ('v', '<')],
        vec![('v', '>')],
        vec![('<', '<'), ('^', '^'), ('>', '>')],
    ];
    proof {
        let rows = views(edges@);
        let wanted = direction_pad().edges;
        assert(rows[0] =~= wanted[0]);
        assert(rows[1] =~= wanted[1]);
        assert(rows[2] =~= wanted[2]);
        assert(rows[3] =~= wanted[3]);
        assert(rows[4] =~= wanted[4]);
        assert(rows =~= wanted);
        assert(buttons@ =~= direction_pad().buttons);
    }
    Keypad { buttons, edges }
}

/// The shortest ways between all pairs of buttons of the keypad with the
/// numbers: the keypad and its table. There always is one, for a way
/// leads from every button of this keypad to every other.
pub fn numeric_paths() -> (r: Option<(Keypad, PathTable)>)
    ensures
        r is Some,
        r.unwrap().0@ == numeric_pad(),
        table_of(&r.unwrap().1, numeric_pad()),
{
    let pad = numeric_keypad();
    proof {
        lemma_numeric_ways();
    }
    match all_shortest_paths(&pad) {
        Some(t) => Some((pad, t)),
        None => None,
    }
}

/// The shortest ways between all pairs of buttons of the keypad with the
/// directions: the keypad and its table. There always is one, for a way
/// leads from every button of this keypad to every other.
pub fn direction_paths() -> (r: Option<(Keypad, PathTable)>)
    ensures
        r is Some,
        r.unwrap().0@ == direction_pad(),
        table_of(&r.unwrap().1, direction_pad()),
{
    let pad = direction_keypad();
    proof {
        lemma_direction_ways();
    }
    match all_shortest_paths(&pad) {
        Some(t) => Some((pad, t)),
        None => None,
    }
}


/// No way leads from the button `a` to the button `b`: there is no
/// shortest way, or a button on a way is not on the keypad.
pub open spec fn no_way(pad: Pad, a: char, b: char) -> bool {
    match shortest(pad, a, b) {
        Some(w) => w.len() == 0,
        None => true,
    }
}

/// From some button of the keypad no way leads to some other.
pub open spec fn stranded(pad: Pad) -> bool {
    exists|i: int, j: int|
        0 <= i < pad.buttons.len() && 0 <= j < pad.buttons.len() && #[trigger] no_way(
            pad,
            pad.buttons[i],
            pad.buttons[j],
        )
}

/// The most buttons of a keypad for which a table of ways is made.
pub const MOST_BUTTONS: usize = 0x3fff;

/// A table of the keypad shows that a way leads from every button to every
/// other.
pub proof fn lemma_table_shows_ways(t: &PathTable, pad: Pad)
    requires
        table_of(t, pad),
    ensures
        !stranded(pad),
{
    let n = pad.buttons.len() as int;
    assert forall|i: int, j: int| 0 <= i < n && 0 <= j < n implies !#[trigger] no_way(
        pad,
        pad.buttons[i],
        pad.buttons[j],
    ) by {
        let k = slot(n, j, i);
        crate::maze::table::lemma_slot_in_range(n, n, j, i);
        assert(t.keys@[k] == (pad.buttons[i], pad.buttons[j]));
        assert(table_paths(t, k).len() > 0);
    }
}

/// Every place below `n` times `n` is the slot of a row and a column below
/// `n`.
pub proof fn lemma_slot_parts(n: int, k: int) -> (at: (int, int))
    requires
        0 <= n,
        0 <= k < n * n,
    ensures
        0 <= at.0 < n,
        0 <= at.1 < n,
        slot(n, at.1, at.0) == k,
{
    assert(n > 0) by (nonlinear_arith)
        requires
            0 <= n,
            0 <= k < n * n,
    ;
    vstd::arithmetic::div_mod::lemma_fundamental_div_mod(k, n);
    vstd::arithmetic::div_mod::lemma_mod_bound(k, n);
    let i = k / n;
    let j = k % n;
    assert(0 <= i < n) by (nonlinear_arith)
        requires
            k == n * i + j,
            0 <= j < n,
            0 <= k < n * n,
    ;
    assert(i * n + j == n * i + j) by (nonlinear_arith);
    (i, j)
}

/// The character is a button of the keypad.
pub open spec fn known(buttons: Seq<char>, c: char) -> bool {
    exists|j: int| 0 <= j < buttons.len() && #[trigger] buttons[j] == c
}

/// Every button has its row of steps, and every step leads to a button.
pub open spec fn sound(pad: Pad) -> bool {
    &&& pad.edges.len() >= pad.buttons.len()
    &&& forall|i: int, k: int|
        0 <= i < pad.buttons.len() && 0 <= k < pad.edges[i].len() ==> known(
            pad.buttons,
            (#[trigger] pad.edges[i][k]).0,
        )
}

/// Where a button is found, it stands; where none is found, it stands
/// nowhere.
pub proof fn lemma_index_of(buttons: Seq<char>, b: char, n: int)
    requires
        0 <= n <= buttons.len(),
    ensures
        match index_of(buttons, b, n) {
            Some(i) => 0 <= i < n && buttons[i] == b,
            None => forall|j: int| 0 <= j < n ==> buttons[j] != b,
        },
    decreases n,
{
    if n > 0 && buttons[n - 1] != b {
        lemma_index_of(buttons, b, n - 1);
    }
}

/// A button that stands at `i` and nowhere behind is found at `i`.
pub proof fn lemma_index_at(buttons: Seq<char>, b: char, n: int, i: int)
    requires
        0 <= i < n <= buttons.len(),
        buttons[i] == b,
        forall|j: int| i < j < n ==> buttons[j] != b,
    ensures
        index_of(buttons, b, n) == Some(i),
    decreases n,
{
    if n - 1 > i {
        lemma_index_at(buttons, b, n - 1, i);
    }
}

/// On a sound keypad a button has a row of steps, and they lead to
/// buttons.
pub proof fn lemma_beside(pad: Pad, c: char)
    requires
        sound(pad),
        known(pad.buttons, c),
    ensures
        beside(pad, c) is Some,
        forall|k: int|
            0 <= k < beside(pad, c).unwrap().len() ==> known(pad.buttons, (#[trigger] beside(pad, c).unwrap()[k]).0),
{
    lemma_index_of(pad.buttons, c, pad.buttons.len() as int);
    let i = index_of(pad.buttons, c, pad.buttons.len() as int).unwrap();
    let es = pad.edges[i];
    assert(beside(pad, c) == Some(es));
    assert forall|k: int| 0 <= k < es.len() implies known(pad.buttons, (#[trigger] es[k]).0) by {
        assert(known(pad.buttons, pad.edges[i][k].0));
    }
}

/// On a sound keypad the ways from a button are found, however many
/// presses they take.
pub proof fn lemma_ways_some(pad: Pad, s: char, e: char, d: nat)
    requires
        sound(pad),
        s == e || known(pad.buttons, s),
    ensures
        ways(pad, s, e, d) is Some,
    decreases d, 1int, 0int,
{
    if s != e && d > 0 {
        lemma_beside(pad, s);
        let es = beside(pad, s).unwrap();
        lemma_ways_via_some(pad, es, es.len() as int, e, d);
    }
}

/// On a sound keypad the ways through steps that lead to buttons are
/// found.
pub proof fn lemma_ways_via_some(pad: Pad, es: Seq<(char, char)>, k: int, e: char, d: nat)
    requires
        sound(pad),
        k <= es.len(),
        forall|t: int| 0 <= t < es.len() ==> known(pad.buttons, (#[trigger] es[t]).0),
    ensures
        ways_via(pad, es, k, e, d) is Some,
    decreases d, 0int, k,
{
    if k > 0 && d > 0 {
        lemma_ways_via_some(pad, es, k - 1, e, d);
        assert(known(pad.buttons, es[k - 1].0));
        lemma_ways_some(pad, es[k - 1].0, e, (d - 1) as nat);
    }
}

/// Where a way goes on from one of the first `k` steps, there is a way
/// through them.
pub proof fn lemma_via_has(pad: Pad, es: Seq<(char, char)>, k: int, at: int, e: char, d: nat)
    requires
        sound(pad),
        0 <= at < k <= es.len(),
        d > 0,
        forall|t: int| 0 <= t < es.len() ==> known(pad.buttons, (#[trigger] es[t]).0),
        ways(pad, es[at].0, e, (d - 1) as nat) is Some,
        ways(pad, es[at].0, e, (d - 1) as nat).unwrap().len() > 0,
    ensures
        ways_via(pad, es, k, e, d) is Some,
        ways_via(pad, es, k, e, d).unwrap().len() > 0,
    decreases k,
{
    lemma_ways_via_some(pad, es, k, e, d);
    lemma_ways_via_some(pad, es, k - 1, e, d);
    assert(known(pad.buttons, es[k - 1].0));
    lemma_ways_some(pad, es[k - 1].0, e, (d - 1) as nat);
    if at < k - 1 {
        lemma_via_has(pad, es, k - 1, at, e, d);
    }
}

/// The button `e` is reached from the button `s` with at most `n`
/// presses.
pub open spec fn reach(pad: Pad, s: char, e: char, n: nat) -> bool
    decreases n,
{
    s == e || (n > 0 && match beside(pad, s) {
        Some(es) => exists|k: int| 0 <= k < es.len() && reach(pad, (#[trigger] es[k]).0, e, (n - 1) as nat),
        None => false,
    })
}

/// What is reached with some presses is reached with more.
pub proof fn lemma_reach_more(pad: Pad, s: char, e: char, n: nat, m: nat)
    requires
        reach(pad, s, e, n),
        n <= m,
    ensures
        reach(pad, s, e, m),
    decreases n,
{
    if s != e {
        let es = beside(pad, s).unwrap();
        let k = choose|k: int| 0 <= k < es.len() && reach(pad, (#[trigger] es[k]).0, e, (n - 1) as nat);
        lemma_reach_more(pad, es[k].0, e, (n - 1) as nat, (m - 1) as nat);
        lemma_reach_step(pad, s, k, e, (m - 1) as nat);
    }
}

/// One step more: what is reached from where a step leads is reached
/// from where the step begins.
pub proof fn lemma_reach_step(pad: Pad, s: char, k: int, e: char, n: nat)
    requires
        beside(pad, s) is Some,
        0 <= k < beside(pad, s).unwrap().len(),
        reach(pad, beside(pad, s).unwrap()[k].0, e, n),
    ensures
        reach(pad, s, e, n + 1),
{
    let es = beside(pad, s).unwrap();
    assert(0 <= k < es.len() && reach(pad, es[k].0, e, ((n + 1) - 1) as nat));
}

/// What is reached by way of a button is reached.
pub proof fn lemma_reach_trans(pad: Pad, s: char, h: char, e: char, n: nat, m: nat)
    requires
        reach(pad, s, h, n),
        reach(pad, h, e, m),
    ensures
        reach(pad, s, e, n + m),
    decreases n,
{
    if s == h {
        lemma_reach_more(pad, s, e, m, n + m);
    } else {
        let es = beside(pad, s).unwrap();
        let k = choose|k: int| 0 <= k < es.len() && reach(pad, (#[trigger] es[k]).0, h, (n - 1) as nat);
        lemma_reach_trans(pad, es[k].0, h, e, (n - 1) as nat, m);
        lemma_reach_step(pad, s, k, e, (n - 1 + m) as nat);
    }
}

/// On a sound keypad, to a button that is reached with at most `n`
/// presses there are ways of some number of presses up to `n`.
pub proof fn lemma_reach_ways(pad: Pad, s: char, e: char, n: nat) -> (m: nat)
    requires
        sound(pad),
        s == e || known(pad.buttons, s),
        reach(pad, s, e, n),
    ensures
        m <= n,
        ways(pad, s, e, m) is Some,
        ways(pad, s, e, m).unwrap().len() > 0,
    decreases n,
{
    if s == e {
        0
    } else {
        lemma_beside(pad, s);
        let es = beside(pad, s).unwrap();
        let k = choose|k: int| 0 <= k < es.len() && reach(pad, (#[trigger] es[k]).0, e, (n - 1) as nat);
        assert(known(pad.buttons, es[k].0));
        let rest = lemma_reach_ways(pad, es[k].0, e, (n - 1) as nat);
        lemma_via_has(pad, es, es.len() as int, k, e, rest + 1);
        rest + 1
    }
}

/// On a sound keypad, where there are ways of `m` presses, the shortest
/// ways sought from `d` presses on are found, and there are some.
pub proof fn lemma_shortest_found(pad: Pad, s: char, e: char, d: nat, m: nat, limit: nat)
    requires
        sound(pad),
        s == e || known(pad.buttons, s),
        d <= m <= limit,
        ways(pad, s, e, m) is Some,
        ways(pad, s, e, m).unwrap().len() > 0,
    ensures
        shortest_from(pad, s, e, d, limit) is Some,
        shortest_from(pad, s, e, d, limit).unwrap().len() > 0,
    decreases m - d,
{
    lemma_ways_some(pad, s, e, d);
    if ways(pad, s, e, d).unwrap().len() == 0 {
        lemma_shortest_found(pad, s, e, d + 1, m, limit);
    }
}

/// From every button a button `hub` is reached with at most `n` presses,
/// and every button from it.
pub open spec fn near(pad: Pad, hub: char, n: nat) -> bool {
    forall|i: int|
        0 <= i < pad.buttons.len() ==> reach(pad, #[trigger] pad.buttons[i], hub, n) && reach(
            pad,
            hub,
            pad.buttons[i],
            n,
        )
}

/// On a sound keypad with a button near all others, a way leads from
/// every button to every other.
pub proof fn lemma_hub(pad: Pad, hub: char, n: nat)
    requires
        sound(pad),
        near(pad, hub, n),
        n + n <= pad.buttons.len(),
    ensures
        !stranded(pad),
{
    assert forall|i: int, j: int| 0 <= i < pad.buttons.len() && 0 <= j < pad.buttons.len() implies !#[trigger] no_way(
        pad,
        pad.buttons[i],
        pad.buttons[j],
    ) by {
        let a = pad.buttons[i];
        let b = pad.buttons[j];
        assert(reach(pad, a, hub, n));
        assert(reach(pad, hub, b, n));
        lemma_reach_trans(pad, a, hub, b, n, n);
        assert(known(pad.buttons, a));
        let m = lemma_reach_ways(pad, a, b, n + n);
        lemma_shortest_found(pad, a, b, 0, m, pad.buttons.len());
    }
}

/// A button that stands once on the keypad has the row of steps at its
/// place.
pub proof fn lemma_row(pad: Pad, i: int)
    requires
        0 <= i < pad.buttons.len() <= pad.edges.len(),
        forall|j: int| i < j < pad.buttons.len() ==> pad.buttons[j] != pad.buttons[i],
    ensures
        beside(pad, pad.buttons[i]) == Some(pad.edges[i]),
{
    lemma_index_at(pad.buttons, pad.buttons[i], pad.buttons.len() as int, i);
}

/// The keypad with the numbers: `7 8 9`, `4 5 6`, `1 2 3`, and `0 A` below
/// the `2` and the `3`.
pub open spec fn numeric_pad() -> Pad {
    Pad {
        buttons: seq!['7', '8', '9', '4', '5', '6', '1', '2', '0', '3', 'A'],
        edges: seq![
            seq![('4', 'v'), ('8', '>')],
            seq![('5', 'v'), ('9', '>'), ('7', '<')],
            seq![('6', 'v'), ('8', '<')],
            seq![('1', 'v'), ('5', '>'), ('7', '^')],
            seq![('2', 'v'), ('6', '>'), ('4', '<'), ('8', '^')],
            seq![('3', 'v'), ('5', '<'), ('9', '^')],
            seq![('2', '>'), ('4', '^')],
            seq![('3', '>'), ('5', '^'), ('1', '<'), ('0', 'v')],
            seq![('2', '^'), ('A', '>')],
            seq![('6', '^'), ('2', '<'), ('A', 'v')],
            seq![('0', '<'), ('3', '^')],
        ],
    }
}

/// The keypad with the directions: `^ A` above `< v >`.
pub open spec fn direction_pad() -> Pad {
    Pad {
        buttons: seq!['^', 'A', '>', '<', 'v'],
        edges: seq![
            seq![('A', '>'), ('v', 'v')],
            seq![('^', '<'), ('>', 'v')],
            seq![('A', '^'), ('v', '<')],
            seq![('v', '>')],
            seq![('<', '<'), ('^', '^'), ('>', '>')],
        ],
    }
}

/// Every button of the keypad with the numbers has the row of steps at
/// its place.
pub proof fn lemma_numeric_rows()
    ensures
        forall|i: int| 0 <= i < 11 ==> beside(numeric_pad(), #[trigger] numeric_pad().buttons[i]) == Some(numeric_pad().edges[i]),
        sound(numeric_pad()),
{
    let p = numeric_pad();
    assert(p.buttons.len() == 11 && p.edges.len() == 11);
    assert forall|i: int| 0 <= i < 11 implies beside(p, #[trigger] p.buttons[i]) == Some(p.edges[i]) by {
        lemma_row(p, i);
    }
    assert forall|i: int, k: int| 0 <= i < p.buttons.len() && 0 <= k < p.edges[i].len() implies known(
        p.buttons,
        (#[trigger] p.edges[i][k]).0,
    ) by {
        let c = p.edges[i][k].0;
        assert(p.buttons[0] == '7' && p.buttons[1] == '8' && p.buttons[2] == '9' && p.buttons[3] == '4'
            && p.buttons[4] == '5' && p.buttons[5] == '6' && p.buttons[6] == '1' && p.buttons[7] == '2'
            && p.buttons[8] == '0' && p.buttons[9] == '3' && p.buttons[10] == 'A');
        assert(c == '7' || c == '8' || c == '9' || c == '4' || c == '5' || c == '6' || c == '1' || c
            == '2' || c == '0' || c == '3' || c == 'A');
    }
}

/// On the keypad with the numbers a way leads from every button to every
/// other.
pub proof fn lemma_numeric_ways()
    ensures
        sound(numeric_pad()),
        !stranded(numeric_pad()),
{
    let p = numeric_pad();
    lemma_numeric_rows();
    assert(p.buttons[0] == '7' && p.buttons[1] == '8' && p.buttons[2] == '9' && p.buttons[3] == '4'
        && p.buttons[4] == '5' && p.buttons[5] == '6' && p.buttons[6] == '1' && p.buttons[7] == '2'
        && p.buttons[8] == '0' && p.buttons[9] == '3' && p.buttons[10] == 'A');
    assert(beside(p, '7') == Some(p.edges[0]));
    assert(beside(p, '8') == Some(p.edges[1]));
    assert(beside(p, '9') == Some(p.edges[2]));
    assert(beside(p, '4') == Some(p.edges[3]));
    assert(beside(p, '5') == Some(p.edges[4]));
    assert(beside(p, '6') == Some(p.edges[5]));
    assert(beside(p, '1') == Some(p.edges[6]));
    assert(beside(p, '2') == Some(p.edges[7]));
    assert(beside(p, '0') == Some(p.edges[8]));
    assert(beside(p, '3') == Some(p.edges[9]));
    assert(beside(p, 'A') == Some(p.edges[10]));
    // to the button in the middle
    assert(reach(p, '5', '5', 0));
    lemma_reach_step(p, '8', 0, '5', 0);
    lemma_reach_step(p, '4', 1, '5', 0);
    lemma_reach_step(p, '6', 1, '5', 0);
    lemma_reach_step(p, '2', 1, '5', 0);
    lemma_reach_step(p, '7', 0, '5', 1);
    lemma_reach_step(p, '9', 0, '5', 1);
    lemma_reach_step(p, '1', 0, '5', 1);
    lemma_reach_step(p, '0', 0, '5', 1);
    lemma_reach_step(p, '3', 0, '5', 1);
    lemma_reach_step(p, 'A', 0, '5', 2);
    lemma_reach_more(p, '5', '5', 0, 3);
    lemma_reach_more(p, '8', '5', 1, 3);
    lemma_reach_more(p, '4', '5', 1, 3);
    lemma_reach_more(p, '6', '5', 1, 3);
    lemma_reach_more(p, '2', '5', 1, 3);
    lemma_reach_more(p, '7', '5', 2, 3);
    lemma_reach_more(p, '9', '5', 2, 3);
    lemma_reach_more(p, '1', '5', 2, 3);
    lemma_reach_more(p, '0', '5', 2, 3);
    lemma_reach_more(p, '3', '5', 2, 3);
    // from the button in the middle
    assert(reach(p, '8', '8', 0) && reach(p, '4', '4', 0) && reach(p, '6', '6', 0) && reach(p, '2', '2', 0));
    assert(reach(p, '7', '7', 0) && reach(p, '9', '9', 0) && reach(p, '1', '1', 0) && reach(p, '3', '3', 0));
    assert(reach(p, '0', '0', 0) && reach(p, 'A', 'A', 0));
    lemma_reach_step(p, '5', 3, '8', 0);
    lemma_reach_step(p, '5', 2, '4', 0);
    lemma_reach_step(p, '5', 1, '6', 0);
    lemma_reach_step(p, '5', 0, '2', 0);
    lemma_reach_step(p, '4', 2, '7', 0);
    lemma_reach_step(p, '5', 2, '7', 1);
    lemma_reach_step(p, '6', 2, '9', 0);
    lemma_reach_step(p, '5', 1, '9', 1);
    lemma_reach_step(p, '4', 0, '1', 0);
    lemma_reach_step(p, '5', 2, '1', 1);
    lemma_reach_step(p, '6', 0, '3', 0);
    lemma_reach_step(p, '5', 1, '3', 1);
    lemma_reach_step(p, '2', 3, '0', 0);
    lemma_reach_step(p, '5', 0, '0', 1);
    lemma_reach_step(p, '3', 2, 'A', 0);
    lemma_reach_step(p, '6', 0, 'A', 1);
    lemma_reach_step(p, '5', 1, 'A', 2);
    lemma_reach_more(p, '5', '8', 1, 3);
    lemma_reach_more(p, '5', '4', 1, 3);
    lemma_reach_more(p, '5', '6', 1, 3);
    lemma_reach_more(p, '5', '2', 1, 3);
    lemma_reach_more(p, '5', '7', 2, 3);
    lemma_reach_more(p, '5', '9', 2, 3);
    lemma_reach_more(p, '5', '1', 2, 3);
    lemma_reach_more(p, '5', '3', 2, 3);
    lemma_reach_more(p, '5', '0', 2, 3);
    assert(near(p, '5', 3));
    lemma_hub(p, '5', 3);
}

/// Every button of the keypad with the directions has the row of steps at
/// its place.
pub proof fn lemma_direction_rows()
    ensures
        forall|i: int| 0 <= i < 5 ==> beside(direction_pad(), #[trigger] direction_pad().buttons[i]) == Some(direction_pad().edges[i]),
        sound(direction_pad()),
{
    let p = direction_pad();
    assert(p.buttons.len() == 5 && p.edges.len() == 5);
    assert forall|i: int| 0 <= i < 5 implies beside(p, #[trigger] p.buttons[i]) == Some(p.edges[i]) by {
        lemma_row(p, i);
    }
    assert forall|i: int, k: int| 0 <= i < p.buttons.len() && 0 <= k < p.edges[i].len() implies known(
        p.buttons,
        (#[trigger] p.edges[i][k]).0,
    ) by {
        let c = p.edges[i][k].0;
        assert(p.buttons[0] == '^' && p.buttons[1] == 'A' && p.buttons[2] == '>' && p.buttons[3] == '<'
            && p.buttons[4] == 'v');
        assert(c == '^' || c == 'A' || c == '>' || c == '<' || c == 'v');
    }
}

/// On the keypad with the directions a way leads from every button to
/// every other.
pub proof fn lemma_direction_ways()
    ensures
        sound(direction_pad()),
        !stranded(direction_pad()),
{
    let p = direction_pad();
    lemma_direction_rows();
    assert(p.buttons[0] == '^' && p.buttons[1] == 'A' && p.buttons[2] == '>' && p.buttons[3] == '<'
        && p.buttons[4] == 'v');
    assert(beside(p, '^') == Some(p.edges[0]));
    assert(beside(p, 'A') == Some(p.edges[1]));
    assert(beside(p, '>') == Some(p.edges[2]));
    assert(beside(p, '<') == Some(p.edges[3]));
    assert(beside(p, 'v') == Some(p.edges[4]));
    // to the button below
    assert(reach(p, 'v', 'v', 0));
    lemma_reach_step(p, '^', 1, 'v', 0);
    lemma_reach_step(p, '>', 1, 'v', 0);
    lemma_reach_step(p, '<', 0, 'v', 0);
    lemma_reach_step(p, 'A', 0, 'v', 1);
    lemma_reach_more(p, 'v', 'v', 0, 2);
    lemma_reach_more(p, '^', 'v', 1, 2);
    lemma_reach_more(p, '>', 'v', 1, 2);
    lemma_reach_more(p, '<', 'v', 1, 2);
    // from the button below
    assert(reach(p, '<', '<', 0) && reach(p, '^', '^', 0) && reach(p, '>', '>', 0) && reach(p, 'A', 'A', 0));
    lemma_reach_step(p, 'v', 0, '<', 0);
    lemma_reach_step(p, 'v', 1, '^', 0);
    lemma_reach_step(p, 'v', 2, '>', 0);
    lemma_reach_step(p, '^', 0, 'A', 0);
    lemma_reach_step(p, 'v', 1, 'A', 1);
    lemma_reach_more(p, 'v', '<', 1, 2);
    lemma_reach_more(p, 'v', '^', 1, 2);
    lemma_reach_more(p, 'v', '>', 1, 2);
    assert(near(p, 'v', 2));
    lemma_hub(p, 'v', 2);
}

/// The ways that a table holds for the pair `(a, b)`: those of the last of
/// its first `n` entries for that pair.
pub open spec fn looked_up(t: &PathTable, a: char, b: char, n: int) -> Option<Seq<Seq<char>>>
    decreases n,
{
    if n <= 0 || n > t.keys.len() || n > t.paths.len() {
        None
    } else if t.keys@[n - 1] == (a, b) {
        Some(table_paths(t, n - 1))
    } else {
        looked_up(t, a, b, n - 1)
    }
}

/// The sum of two numbers, if 128 bits hold it.
pub open spec fn sum_of(a: Option<nat>, b: Option<nat>) -> Option<nat> {
    match (a, b) {
        (Some(x), Some(y)) => if x + y <= u128::MAX {
            Some(x + y)
        } else {
            None
        },
        _ => None,
    }
}

/// The least number of presses that the first robot of a chain must be
/// given so that the last robot goes from the button `a` to the button `b`
/// and presses it: with no robots between, one more than a shortest way
/// has steps; else the least, over the shortest ways, of what must be given
/// for the way followed by `'A'` on a chain one shorter. The last robot
/// stands at the keypad with numbers if `numeric` says so, all others at
/// keypads with directions. There is no number where a button is not on a
/// keypad or a sum exceeds 128 bits.
pub open spec fn pair_cost(nt: &PathTable, dt: &PathTable, a: char, b: char, depth: nat, numeric: bool) -> Option<nat>
    decreases depth, 2int, 0int,
{
    let t = if numeric {
        nt
    } else {
        dt
    };
    match looked_up(t, a, b, t.keys.len() as int) {
        None => None,
        Some(ps) => if ps.len() == 0 {
            None
        } else if depth == 0 {
            sum_of(Some(ps[0].len()), Some(1))
        } else {
            least(nt, dt, ps, ps.len() as int, depth)
        },
    }
}

/// The least, over the first `k` ways, of what must be given for the way
/// followed by `'A'` on a chain one shorter.
pub open spec fn least(nt: &PathTable, dt: &PathTable, ps: Seq<Seq<char>>, k: int, depth: nat) -> Option<nat>
    decreases depth, 1int, k,
{
    if k <= 0 || depth == 0 {
        None
    } else {
        let here = seq_cost(nt, dt, ps[k - 1].push('A'), (depth - 1) as nat, false);
        if k == 1 {
            here
        } else {
            match (least(nt, dt, ps, k - 1, depth), here) {
                (Some(x), Some(y)) => Some(if y < x {
                    y
                } else {
                    x
                }),
                _ => None,
            }
        }
    }
}

/// What must be given so that the last robot, beginning at `'A'`, presses
/// the buttons of a sequence one after the other.
pub open spec fn seq_cost(nt: &PathTable, dt: &PathTable, seq: Seq<char>, depth: nat, numeric: bool) -> Option<nat>
    decreases depth, 4int, 0int,
{
    row_cost(nt, dt, seq!['A'] + seq, seq.len() as int, depth, numeric)
}

/// What must be given for the first `k` steps along a row of buttons.
pub open spec fn row_cost(
    nt: &PathTable,
    dt: &PathTable,
    row: Seq<char>,
    k: int,
    depth: nat,
    numeric: bool,
) -> Option<nat>
    decreases depth, 3int, k,
{
    if k <= 0 {
        Some(0)
    } else {
        sum_of(
            row_cost(nt, dt, row, k - 1, depth, numeric),
            pair_cost(nt, dt, row[k - 1], row[k], depth, numeric),
        )
    }
}

/// The ways that a table holds for a pair of buttons.
pub fn lookup<'a>(t: &'a PathTable, a: char, b: char) -> (r: Option<&'a Vec<Vec<char>>>)
    ensures
        match r {
            Some(ps) => looked_up(t, a, b, t.keys.len() as int) == Some(views(ps@))
                && t.keys.len() <= t.paths.len(),
            None => looked_up(t, a, b, t.keys.len() as int) is None,
        },
{
    if t.keys.len() > t.paths.len() {
        return None;
    }
    let mut n: usize = t.keys.len();
    while n > 0
        invariant
            n <= t.keys.len() <= t.paths.len(),
            looked_up(t, a, b, t.keys.len() as int) == looked_up(t, a, b, n as int),
        decreases n,
    {
        let key = t.keys[n - 1];
        if key.0 == a && key.1 == b {
            return Some(&t.paths[n - 1]);
        }
        n -= 1;
    }
    None
}

/// The place of a pair of buttons in a table.
fn find_pair(t: &PathTable, a: char, b: char) -> (r: Option<usize>)
    ensures
        match r {
            Some(k) => k < t.keys.len() && k < t.paths.len() && t.keys@[k as int] == (a, b) && looked_up(
                t,
                a,
                b,
                t.keys.len() as int,
            ) == Some(table_paths(t, k as int)),
            None => looked_up(t, a, b, t.keys.len() as int) is None,
        },
{
    if t.keys.len() > t.paths.len() {
        return None;
    }
    let mut n: usize = t.keys.len();
    while n > 0
        invariant
            n <= t.keys.len() <= t.paths.len(),
            looked_up(t, a, b, t.keys.len() as int) == looked_up(t, a, b, n as int),
        decreases n,
    {
        let key = t.keys[n - 1];
        if key.0 == a && key.1 == b {
            return Some(n - 1);
        }
        n -= 1;
    }
    None
}

/// The numbers hold, for every pair of the table of directions, what must
/// be given on a chain of `depth` robots between.
pub open spec fn layer_of(layer: Seq<Option<u128>>, nt: &PathTable, dt: &PathTable, depth: nat) -> bool {
    &&& layer.len() == dt.keys.len()
    &&& forall|k: int|
        0 <= k < layer.len() ==> (match #[trigger] layer[k] {
            Some(v) => Some(v as nat),
            None => None,
        }) == pair_cost(nt, dt, dt.keys@[k].0, dt.keys@[k].1, depth, false)
}

/// A number of 128 bits as a number without limit.
pub open spec fn widened(v: Option<u128>) -> Option<nat> {
    match v {
        Some(x) => Some(x as nat),
        None => None,
    }
}

/// What must be given for a row of buttons of the keypad with directions,
/// from the numbers for its pairs.
fn row_cost_in(
    nt: &PathTable,
    dt: &PathTable,
    layer: &Vec<Option<u128>>,
    row: &Vec<char>,
    Ghost(depth): Ghost<nat>,
) -> (r: Option<u128>)
    requires
        layer_of(layer@, nt, dt, depth),
        row.len() >= 1,
    ensures
        widened(r) == row_cost(nt, dt, row@, row.len() - 1, depth, false),
{
    let pairs = neighbours_in_row(row);
    let mut total: u128 = 0;
    let mut k: usize = 0;
    while k < pairs.len()
        invariant
            k <= pairs.len(),
            pairs.len() == row.len() - 1,
            row.len() >= 1,
            layer_of(layer@, nt, dt, depth),
            forall|i: int| 0 <= i < pairs@.len() ==> #[trigger] pairs@[i] == (row@[i], row@[i + 1]),
            row_cost(nt, dt, row@, k as int, depth, false) == Some(total as nat),
        decreases pairs.len() - k,
    {
        let (a, b) = pairs[k];
        assert(pairs@[k as int] == (row@[k as int], row@[k + 1]));
        let cost = match find_pair(dt, a, b) {
            Some(i) => layer[i],
            None => None,
        };
        let sum = match cost {
            Some(c) => total.checked_add(c),
            None => None,
        };
        match sum {
            Some(s) => {
                assert(widened(cost) == pair_cost(nt, dt, a, b, depth, false));
                total = s;
            },
            None => {
                proof {
                    assert(widened(cost) == pair_cost(nt, dt, a, b, depth, false));
                    assert(row_cost(nt, dt, row@, k + 1, depth, false) is None);
                    lemma_row_cost_stuck(nt, dt, row@, k + 1, row.len() - 1, depth, false);
                }
                return None;
            },
        }
        k += 1;
    }
    Some(total)
}

/// A row costs nothing that can be held once a part of it does not.
pub proof fn lemma_row_cost_stuck(
    nt: &PathTable,
    dt: &PathTable,
    row: Seq<char>,
    a: int,
    b: int,
    depth: nat,
    numeric: bool,
)
    requires
        a <= b,
        row_cost(nt, dt, row, a, depth, numeric) is None,
    ensures
        row_cost(nt, dt, row, b, depth, numeric) is None,
    decreases b - a,
{
    if a < b {
        lemma_row_cost_stuck(nt, dt, row, a, b - 1, depth, numeric);
    }
}

/// What must be given for a pair of buttons, from the numbers for the
/// pairs of directions on a chain one shorter.
fn pair_cost_in(
    nt: &PathTable,
    dt: &PathTable,
    lower: &Vec<Option<u128>>,
    a: char,
    b: char,
    depth: usize,
    numeric: bool,
) -> (r: Option<u128>)
    requires
        depth > 0 ==> layer_of(lower@, nt, dt, (depth - 1) as nat),
    ensures
        widened(r) == pair_cost(nt, dt, a, b, depth as nat, numeric),
{
    let t = if numeric {
        nt
    } else {
        dt
    };
    let ps = match lookup(t, a, b) {
        Some(ps) => ps,
        None => {
            return None;
        },
    };
    if ps.len() == 0 {
        return None;
    }
    let ghost all = views(ps@);
    if depth == 0 {
        assert(all[0] == ps@[0]@);
        let n = ps[0].len() as u128;
        return n.checked_add(1);
    }
    let mut best: Option<u128> = None;
    let mut k: usize = 0;
    while k < ps.len()
        invariant
            k <= ps.len(),
            ps.len() > 0,
            depth > 0,
            all == views(ps@),
            looked_up(
                if numeric {
                    nt
                } else {
                    dt
                },
                a,
                b,
                (if numeric {
                    nt
                } else {
                    dt
                }).keys.len() as int,
            ) == Some(all),
            layer_of(lower@, nt, dt, (depth - 1) as nat),
            k > 0 ==> widened(best) == least(nt, dt, all, k as int, depth as nat) && best is Some,
            k == 0 ==> best is None,
        decreases ps.len() - k,
    {
        let mut row: Vec<char> = Vec::new();
        row.push('A');
        let p = &ps[k];
        assert(all[k as int] == p@);
        let mut i: usize = 0;
        while i < p.len()
            invariant
                i <= p.len(),
                row@ == seq!['A'] + p@.take(i as int),
            decreases p.len() - i,
        {
            row.push(p[i]);
            assert(row@ =~= seq!['A'] + p@.take(i + 1));
            i += 1;
        }
        row.push('A');
        proof {
            assert(p@.take(p.len() as int) =~= p@);
            assert(row@ =~= seq!['A'] + p@.push('A'));
        }
        let here = row_cost_in(nt, dt, lower, &row, Ghost((depth - 1) as nat));
        assert(widened(here) == seq_cost(nt, dt, p@.push('A'), (depth - 1) as nat, false));
        match here {
            None => {
                proof {
                    assert(least(nt, dt, all, k + 1, depth as nat) is None);
                    lemma_least_stuck(nt, dt, all, k + 1, ps.len() as int, depth as nat);
                }
                return None;
            },
            Some(v) => {
                proof {
                    let spec_here = seq_cost(nt, dt, all[k as int].push('A'), (depth - 1) as nat, false);
                    assert(spec_here == Some(v as nat));
                    assert(least(nt, dt, all, k + 1, depth as nat) == (if k == 0 {
                        spec_here
                    } else {
                        match (least(nt, dt, all, k as int, depth as nat), spec_here) {
                            (Some(x), Some(y)) => Some(if y < x {
                                y
                            } else {
                                x
                            }),
                            _ => None,
                        }
                    }));
                }
                best = match best {
                    None => Some(v),
                    Some(x) => Some(if v < x {
                        v
                    } else {
                        x
                    }),
                };
            },
        }
        k += 1;
    }
    best
}

/// There is no least once the number for an earlier way cannot be held.
pub proof fn lemma_least_stuck(nt: &PathTable, dt: &PathTable, ps: Seq<Seq<char>>, a: int, b: int, depth: nat)
    requires
        1 <= a <= b,
        least(nt, dt, ps, a, depth) is None,
    ensures
        least(nt, dt, ps, b, depth) is None,
    decreases b - a,
{
    if a < b {
        lemma_least_stuck(nt, dt, ps, a, b - 1, depth);
    }
}

/// The numbers for all pairs of directions on a chain of `depth` robots
/// between.
fn layer_at(nt: &PathTable, dt: &PathTable, depth: usize) -> (layer: Vec<Option<u128>>)
    ensures
        layer_of(layer@, nt, dt, depth as nat),
    decreases depth,
{
    let lower = if depth == 0 {
        Vec::new()
    } else {
        layer_at(nt, dt, depth - 1)
    };
    let mut layer: Vec<Option<u128>> = Vec::new();
    let mut k: usize = 0;
    while k < dt.keys.len()
        invariant
            k <= dt.keys.len(),
            layer.len() == k,
            depth > 0 ==> layer_of(lower@, nt, dt, (depth - 1) as nat),
            forall|h: int|
                0 <= h < k ==> widened(#[trigger] layer@[h]) == pair_cost(
                    nt,
                    dt,
                    dt.keys@[h].0,
                    dt.keys@[h].1,
                    depth as nat,
                    false,
                ),
        decreases dt.keys.len() - k,
    {
        let (a, b) = dt.keys[k];
        layer.push(pair_cost_in(nt, dt, &lower, a, b, depth, false));
        k += 1;
    }
    layer
}

/// The least number of presses that must be given to the first of a chain
/// of robots so that the last of them presses the buttons of `sequence`
/// one after the other, beginning at `'A'`, with `depth` robots between
/// the first and the last. The last robot stands at the keypad with
/// numbers if `numeric` says so.
pub fn find_shortest_sequence(
    sequence: &Vec<char>,
    depth: usize,
    numeric: bool,
    nt: &PathTable,
    dt: &PathTable,
) -> (r: Option<u128>)
    ensures
        widened(r) == seq_cost(nt, dt, sequence@, depth as nat, numeric),
{
    let lower = if depth == 0 {
        Vec::new()
    } else {
        layer_at(nt, dt, depth - 1)
    };
    let mut row: Vec<char> = Vec::new();
    row.push('A');
    let mut i: usize = 0;
    while i < sequence.len()
        invariant
            i <= sequence.len(),
            row@ == seq!['A'] + sequence@.take(i as int),
        decreases sequence.len() - i,
    {
        row.push(sequence[i]);
        assert(row@ =~= seq!['A'] + sequence@.take(i + 1));
        i += 1;
    }
    assert(sequence@.take(sequence.len() as int) =~= sequence@);
    let pairs = neighbours_in_row(&row);
    let mut total: u128 = 0;
    let mut k: usize = 0;
    while k < pairs.len()
        invariant
            k <= pairs.len(),
            pairs.len() == row.len() - 1,
            row@ == seq!['A'] + sequence@,
            depth > 0 ==> layer_of(lower@, nt, dt, (depth - 1) as nat),
            forall|i: int| 0 <= i < pairs@.len() ==> #[trigger] pairs@[i] == (row@[i], row@[i + 1]),
            row_cost(nt, dt, row@, k as int, depth as nat, numeric) == Some(total as nat),
        decreases pairs.len() - k,
    {
        let (a, b) = pairs[k];
        assert(pairs@[k as int] == (row@[k as int], row@[k + 1]));
        let cost = pair_cost_in(nt, dt, &lower, a, b, depth, numeric);
        let sum = match cost {
            Some(c) => total.checked_add(c),
            None => None,
        };
        match sum {
            Some(s) => {
                total = s;
            },
            None => {
                proof {
                    assert(row_cost(nt, dt, row@, k + 1, depth as nat, numeric) is None);
                    lemma_row_cost_stuck(nt, dt, row@, k + 1, row.len() - 1, depth as nat, numeric);
                }
                return None;
            },
        }
        k += 1;
    }
    Some(total)
}

} // verus!
