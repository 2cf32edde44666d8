use gridpath::graph::{shortest_paths, Graph};
use gridpath::lattice::Lattice;
use gridpath::maze::heading::Direction;
use gridpath::queue::MinQueue;
use gridpath::text::{
    chars_of, digit_value, is_whitespace, parse_digits, parse_signed, parse_unsigned, split_lines,
    split_on, split_whitespace, starts_with, string_of, tail, to_decimal, trim,
};

fn cs(s: &str) -> Vec<char> {
    s.chars().collect()
}

fn strs(v: Vec<Vec<char>>) -> Vec<String> {
    v.iter().map(|l| l.iter().collect()).collect()
}

#[test]
fn queue_hands_out_least_first() {
    let mut q: MinQueue<u8> = MinQueue::new();
    assert!(q.is_empty());
    assert_eq!(q.pop(), None);
    for (k, v) in [(5u128, 1u8), (3, 2), (9, 3), (1, 4), (7, 5), (3, 6), (0, 7)] {
        q.push(k, v);
    }
    assert_eq!(q.len(), 7);
    assert_eq!(q.peek(), Some((0, 7)));
    let mut keys = Vec::new();
    while let Some((k, _)) = q.pop() {
        keys.push(k);
    }
    assert_eq!(keys, vec![0, 1, 3, 3, 5, 7, 9]);
    assert!(q.is_empty());
}

#[test]
fn lines_follow_the_usual_rules() {
    assert_eq!(strs(split_lines(&cs("a\nb\r\n\nc"))), vec!["a", "b", "", "c"]);
    assert_eq!(strs(split_lines(&cs("a\n"))), vec!["a"]);
    assert_eq!(strs(split_lines(&cs("a\r"))), vec!["a\r"]);
    assert_eq!(strs(split_lines(&cs(""))), Vec::<String>::new());
    assert_eq!(strs(split_lines(&cs("\n"))), vec![""]);
}

#[test]
fn splitting_and_trimming() {
    assert_eq!(strs(split_on(&cs("a,b,,c,"), ',')), vec!["a", "b", "", "c", ""]);
    assert_eq!(strs(split_on(&cs(""), ',')), vec![""]);
    assert_eq!(strs(split_whitespace(&cs("  ab \t c\u{3000}d  "))), vec!["ab", "c", "d"]);
    assert_eq!(strs(split_whitespace(&cs("   "))), Vec::<String>::new());
    assert_eq!(trim(&cs("  a b \n")), cs("a b"));
    assert_eq!(trim(&cs(" \t ")), cs(""));
    assert_eq!(trim(&cs("x")), cs("x"));
    assert!(is_whitespace(' ') && is_whitespace('\u{a0}') && !is_whitespace('x'));
    assert!(starts_with(&cs("Program: 1"), &cs("Program:")));
    assert!(!starts_with(&cs("Pro"), &cs("Program:")));
    assert_eq!(tail(&cs("abcdef"), 4), cs("ef"));
    assert_eq!(tail(&cs("ab"), 3), cs(""));
    assert_eq!(chars_of("héllo"), cs("héllo"));
    assert_eq!(string_of(&cs("héllo")), "héllo");
}

#[test]
fn numbers_are_read_and_written() {
    assert_eq!(parse_unsigned(&cs("0"), 255), Some(0));
    assert_eq!(parse_unsigned(&cs("+255"), 255), Some(255));
    assert_eq!(parse_unsigned(&cs("256"), 255), None);
    assert_eq!(parse_unsigned(&cs("0000000000000000000000000000000000000000012"), 255), Some(12));
    assert_eq!(parse_unsigned(&cs(""), 255), None);
    assert_eq!(parse_unsigned(&cs("+"), 255), None);
    assert_eq!(parse_unsigned(&cs("-1"), 255), None);
    assert_eq!(parse_unsigned(&cs("1a"), 255), None);
    assert_eq!(
        parse_unsigned(&cs("340282366920938463463374607431768211455"), u128::MAX),
        Some(u128::MAX)
    );
    assert_eq!(parse_unsigned(&cs("340282366920938463463374607431768211456"), u128::MAX), None);
    assert_eq!(parse_digits(&cs("ab12"), 2, 100), Some(12));
    assert_eq!(parse_signed(&cs("-128"), -128, 127), Some(-128));
    assert_eq!(parse_signed(&cs("-129"), -128, 127), None);
    assert_eq!(parse_signed(&cs("+127"), -128, 127), Some(127));
    assert_eq!(parse_signed(&cs("128"), -128, 127), None);
    assert_eq!(parse_signed(&cs("-0"), -128, 127), Some(0));
    assert_eq!(parse_signed(&cs("-"), -128, 127), None);
    assert_eq!(digit_value('7'), Some(7));
    assert_eq!(digit_value('x'), None);
    assert_eq!(to_decimal(0), cs("0"));
    assert_eq!(to_decimal(9), cs("9"));
    assert_eq!(to_decimal(1020), cs("1020"));
    assert_eq!(to_decimal(u128::MAX), cs("340282366920938463463374607431768211455"));
}

#[test]
fn cheapest_walks_in_a_small_graph() {
    let mut g = Graph::new(5);
    g.add_edge(0, 1, 10);
    g.add_edge(0, 2, 3);
    g.add_edge(2, 1, 4);
    g.add_edge(1, 3, 2);
    g.add_edge(2, 3, 8);
    g.add_edge(3, 0, 1);
    assert_eq!(g.nodes(), 5);
    assert_eq!(g.edges(0), &vec![(1, 10), (2, 3)]);
    let found = shortest_paths(&g, 0);
    assert_eq!(found.distance(&g, 0), Some(0));
    assert_eq!(found.distance(&g, 1), Some(7));
    assert_eq!(found.distance(&g, 2), Some(3));
    assert_eq!(found.distance(&g, 3), Some(9));
    assert_eq!(found.distance(&g, 4), None);
    assert_eq!(found.path_to(&g, 3), Some(vec![0, 2, 1, 3]));
    assert_eq!(found.path_to(&g, 0), Some(vec![0]));
    assert_eq!(found.path_to(&g, 4), None);
}

#[test]
fn shortest_trails_in_a_small_lattice() {
    // . . #
    // # . .
    let open = vec![true, true, false, false, true, true];
    let l = Lattice::from_open(3, 2, &open);
    assert_eq!(l.cols(), 3);
    assert_eq!(l.rows(), 2);
    assert!(l.has_link((0, 0), Direction::East));
    assert!(!l.has_link((1, 0), Direction::East));
    assert!(l.has_link((1, 0), Direction::South));
    assert!(!l.has_link((0, 0), Direction::South));
    assert!(!l.has_link((0, 0), Direction::West));
    let s = l.spread((0, 0));
    assert_eq!(s.steps_to(&l, (2, 1)), Some(3));
    assert_eq!(s.steps_to(&l, (2, 0)), None);
    assert_eq!(s.trail_to(&l, (2, 1)), Some(vec![(0, 0), (1, 0), (1, 1), (2, 1)]));
    assert_eq!(s.trail_to(&l, (0, 1)), None);
    let mut m = Lattice::new(2, 1, 2);
    assert_eq!(m.spread((0, 0)).steps_to(&m, (1, 0)), None);
    m.connect((0, 0), Direction::East);
    assert_eq!(m.spread((0, 0)).steps_to(&m, (1, 0)), Some(1));
    assert_eq!(m.spread((1, 0)).steps_to(&m, (0, 0)), None);
}
