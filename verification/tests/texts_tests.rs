use gridpath::lists::{parse_lists, sort_numbers, total_distance};
use gridpath::towels::{count_arrangements, count_possible_designs, parse_towels};
use gridpath::locks::read_input;
use gridpath::memory_scan::{
    bounded_product, bounded_sum, enabled, product, sum_enabled_multiplications, sum_parts,
    sum_products, sum_valid_multiplications, LIMIT,
};
use gridpath::reports::{
    count_safe_reports, count_safe_reports_with_dampener, parse_report, parse_reports,
};
use gridpath::stones::parse_stones;
use gridpath::text::split_blocks;

fn cs(s: &str) -> Vec<char> {
    s.chars().collect()
}

fn strs(v: Vec<Vec<char>>) -> Vec<String> {
    v.iter().map(|l| l.iter().collect()).collect()
}

#[test]
fn hidden_multiplications() {
    assert_eq!(
        sum_valid_multiplications(
            "xmul(2,4)%&mul[3,7]!@^do_not_mul(5,5)+mul(32,64]then(mul(11,8)mul(8,5))"
        ),
        Some(161)
    );
    assert_eq!(sum_valid_multiplications(""), Some(0));
    assert_eq!(sum_valid_multiplications("mul(1234,5)mul(999,999)mul( 1,2)"), Some(998001));
    assert_eq!(sum_valid_multiplications("mul(2,3)mul(4,5)"), Some(26));
    // digits of other scripts match the pattern but are no numbers here
    assert_eq!(sum_valid_multiplications("mul(\u{0663},4)"), None);
    let group = |s: &str| Some(cs(s));
    assert_eq!(product(&vec![group("mul(2,4)"), group("2"), group("4")]), Some(8));
    assert_eq!(product(&vec![group("x"), group("2")]), None);
    assert_eq!(product(&vec![group("x"), None, group("4")]), None);
    assert_eq!(product(&vec![group("x"), group("2147483648"), group("4")]), None);
    assert_eq!(
        sum_products(&vec![
            vec![group("a"), group("2"), group("4")],
            vec![group("b"), group("3"), group("5")]
        ]),
        Some(23)
    );
    assert_eq!(sum_products(&vec![vec![group("a"), group("2")]]), None);
    assert_eq!(sum_products(&vec![]), Some(0));
}

#[test]
fn locks_and_keys_are_read() {
    let input = "#####\n.####\n.####\n.####\n.#.#.\n.#...\n.....\n\n#####\n##.##\n.#.##\n...##\n...#.\n...#.\n.....\n\n.....\n#....\n#....\n#...#\n#.#.#\n#.###\n#####\n\n.....\n.....\n#.#..\n###..\n###.#\n###.#\n#####\n\n.....\n.....\n.....\n#....\n#.#..\n#.#.#\n#####";
    let all = read_input(input).unwrap();
    assert_eq!(all.locks, vec![vec![0, 5, 3, 4, 3], vec![1, 2, 0, 5, 3]]);
    assert_eq!(all.keys, vec![vec![5, 0, 2, 1, 3], vec![4, 3, 4, 0, 2], vec![3, 0, 2, 0, 1]]);
    assert_eq!(gridpath::locks::count_fitting_pairs(&all), 3);
    assert!(read_input("...\n...").is_none());
    assert!(read_input("").is_none());
    assert!(read_input("...\n###\n...").is_none());
    assert!(read_input("##\n#.#").is_none());
    assert_eq!(strs(split_blocks(&cs("a\n\nb\nc\n\n\nd"))), vec!["a", "b\nc", "\nd"]);
    assert_eq!(strs(split_blocks(&cs(""))), vec![""]);
    assert_eq!(strs(split_blocks(&cs("\n\n"))), vec!["", ""]);
}

#[test]
fn reports_are_read_and_counted() {
    let input = "7 6 4 2 1\n1 2 7 8 9\n9 7 6 2 1\n1 3 2 4 5\n8 6 4 4 1\n1 3 6 7 9\n";
    assert_eq!(count_safe_reports(input), 2);
    assert_eq!(count_safe_reports_with_dampener(input), 4);
    assert_eq!(parse_report(&cs(" 1 x -2  +3 99999999999 4")), vec![1, -2, 3, 4]);
    assert_eq!(parse_reports("1 2\n\n3"), vec![vec![1, 2], vec![], vec![3]]);
    assert_eq!(count_safe_reports(""), 0);
}

#[test]
fn stones_are_read() {
    assert_eq!(parse_stones(" 125 17\n"), Some(vec![125, 17]));
    assert_eq!(parse_stones(""), Some(vec![]));
    assert_eq!(parse_stones("1 x"), None);
    assert_eq!(parse_stones("18446744073709551616"), None);
    assert_eq!(parse_stones("18446744073709551615"), Some(vec![u64::MAX]));
}

#[test]
fn lists_are_sorted_and_measured() {
    let mut v = vec![3, 4, 2, 1, 3, 3];
    sort_numbers(&mut v);
    assert_eq!(v, vec![1, 2, 3, 3, 3, 4]);
    let mut w = vec![i32::MAX, i32::MIN, 0];
    sort_numbers(&mut w);
    assert_eq!(w, vec![i32::MIN, 0, i32::MAX]);
    let mut e: Vec<i32> = vec![];
    sort_numbers(&mut e);
    assert_eq!(e, vec![]);
    assert_eq!(total_distance(&vec![3, 4, 2, 1, 3, 3], &vec![4, 3, 5, 3, 9, 3]), 11);
    assert_eq!(total_distance(&vec![i32::MIN], &vec![i32::MAX]), 4294967295);
    assert_eq!(total_distance(&vec![5, 1], &vec![2]), 1);
    assert_eq!(total_distance(&vec![], &vec![2]), 0);
}

#[test]
fn texts_split_at_every_separator() {
    let split = |s: &str, sep: &str| strs(gridpath::text::split_at_each(&cs(s), &cs(sep)));
    assert_eq!(split("a--b--", "--"), vec!["a", "b", ""]);
    assert_eq!(split("aaa", "aa"), vec!["", "a"]);
    assert_eq!(split("", "x"), vec![""]);
    assert_eq!(split("abc", "abcd"), vec!["abc"]);
    assert_eq!(split("abc", "abc"), vec!["", ""]);
    assert_eq!(split("a-b-c", "-"), vec!["a", "b", "c"]);
    assert_eq!(split("---", "--"), vec!["", "-"]);
    assert!(gridpath::text::stands(&cs("hello"), &cs("llo"), 2));
    assert!(!gridpath::text::stands(&cs("hello"), &cs("llo"), 3));
    assert!(!gridpath::text::stands(&cs("hello"), &cs("hello!"), 0));
}

#[test]
fn multiplications_switched_on_and_off() {
    let sample = "xmul(2,4)&mul[3,7]!^don't()_mul(5,5)+mul(32,64](mul(11,8)undo()?mul(8,5))";
    assert_eq!(sum_enabled_multiplications(sample), Some(48));
    assert_eq!(
        strs(enabled(sample)),
        vec!["xmul(2,4)&mul[3,7]!^", "?mul(8,5))"]
    );
    assert_eq!(sum_enabled_multiplications(""), Some(0));
    assert_eq!(sum_enabled_multiplications("mul(2,\n4)"), Some(8));
    assert_eq!(sum_enabled_multiplications("don't()\nmul(2,3)do()mul(1,1)"), Some(1));
    assert_eq!(sum_enabled_multiplications("do()mul(2,3)do()mul(1,1)"), Some(7));
    assert_eq!(sum_enabled_multiplications("don't()do()don't()mul(2,3)"), Some(0));
    assert_eq!(sum_enabled_multiplications("do\nn't()mul(2,3)"), Some(0));
    assert_eq!(sum_enabled_multiplications("mul(1234,2)"), Some(2468));
    assert_eq!(strs(enabled("do()a")), vec!["", "a"]);
    assert_eq!(strs(enabled("adon't()bdo()cdo()ddon't()do()")), vec!["a", "c", "d", ""]);
}

#[test]
fn multiplications_stay_within_the_limit() {
    let group = |s: &str| Some(cs(s));
    assert_eq!(LIMIT, 9223372036854775807);
    assert_eq!(sum_enabled_multiplications("mul(9223372036854775807,1)"), Some(LIMIT));
    assert_eq!(sum_enabled_multiplications("mul(9223372036854775807,1)mul(1,1)"), None);
    assert_eq!(sum_enabled_multiplications("mul(9223372036854775807,1)do()mul(1,1)"), None);
    assert_eq!(sum_enabled_multiplications("mul(9223372036854775808,1)"), None);
    assert_eq!(sum_enabled_multiplications("mul(4294967296,4294967296)"), None);
    assert_eq!(sum_enabled_multiplications("mul(\u{663},2)"), None);
    assert_eq!(sum_enabled_multiplications("don't()mul(\u{663},2)"), Some(0));
    assert_eq!(bounded_product(&vec![group("x"), group("3"), group("4")], 12), Some(12));
    assert_eq!(bounded_product(&vec![group("x"), group("3"), group("4")], 11), None);
    assert_eq!(bounded_product(&vec![group("x"), group("3")], 11), None);
    assert_eq!(
        bounded_sum(&vec![vec![group("x"), group("3"), group("4")], vec![group("x"), group("5"), group("2")]], 12),
        Some(22)
    );
    assert_eq!(sum_parts(&vec![cs("mul(2,3)"), cs("mul(3,3)mul(1,1)")]), Some(16));
    assert_eq!(sum_parts(&vec![]), Some(0));
}

#[test]
fn lists_are_read_from_lines_of_two_numbers() {
    assert_eq!(
        parse_lists("3   4\n4   3\n2   5\n1   3\n3   9\n3   3\n"),
        Some((vec![3, 4, 2, 1, 3, 3], vec![4, 3, 5, 3, 9, 3]))
    );
    assert_eq!(parse_lists(""), Some((vec![], vec![])));
    // lines of fewer or more words are passed over
    assert_eq!(parse_lists("1 2\n\n7\n3 4 5\n-6 +7"), Some((vec![1, -6], vec![2, 7])));
    assert_eq!(parse_lists("1 x"), None);
    assert_eq!(parse_lists("1 2\n2147483648 1"), None);
    assert_eq!(parse_lists("-2147483648 2147483647"), Some((vec![i32::MIN], vec![i32::MAX])));
    let (mut left, mut right) = parse_lists("3   4\n4   3\n2   5\n1   3\n3   9\n3   3").unwrap();
    assert_eq!(gridpath::lists::calculate_similarity_score(&left, &right), 31);
    sort_numbers(&mut left);
    sort_numbers(&mut right);
    assert_eq!(total_distance(&left, &right), 11);
}

#[test]
fn towels_are_read_from_two_sections() {
    let text = "r, wr, b, g, bwu, rb, gb, br\n\nbrwrr\nbggr\ngbbr\nrrbgbr\nubwu\nbwurrg\nbrgr\nbbrgwb\n";
    let (patterns, designs) = parse_towels(text).unwrap();
    assert_eq!(strs(patterns.clone()), vec!["r", "wr", "b", "g", "bwu", "rb", "gb", "br"]);
    assert_eq!(strs(designs.clone()).len(), 8);
    assert_eq!(strs(designs.clone())[0], "brwrr");
    assert_eq!(count_possible_designs(&patterns, &designs), 6);
    assert_eq!(count_arrangements(&patterns, &designs), Some(16));
    assert!(parse_towels("r, wr\nbrwrr").is_none());
    assert!(parse_towels("").is_none());
    let (patterns, designs) = parse_towels("\n\n").unwrap();
    assert_eq!(strs(patterns), vec![""]);
    assert!(designs.is_empty());
    // what follows a second empty line is not read
    let (patterns, designs) = parse_towels("a,b, c\n\nx\ny\n\nz").unwrap();
    assert_eq!(strs(patterns), vec!["a,b", "c"]);
    assert_eq!(strs(designs), vec!["x", "y"]);
}
