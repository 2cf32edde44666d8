use gridpath::antennas::{
    count_antinodes, count_resonant_antinodes, find_antennas, gcd, width_in_bytes,
};
use gridpath::calibration::{
    evaluate_left_to_right, generate_all_operations, total_calibration_result,
};
use gridpath::claw::{claw_machine_parser, parse_input as parse_claws, process_part1, ClawMachine};
use gridpath::computer::{solve_for_a, Computer};
use gridpath::lists::{calculate_similarity_score, occurrences};
use gridpath::locks::{
    count_fitting_pairs, is_full_row, key_heights, lock_fits_key, lock_heights, LocksAndKeys,
};
use gridpath::machine::MachineError;
use gridpath::network::{
    count_groups, find_name, fits, grow_parties, intern, largest_party, link_table, parse_links,
    same_text, visiting_order,
};
use gridpath::reports::{can_be_safe_with_dampener, count_safe, is_safe_report};
use gridpath::robots::{
    count_quadrants, is_spread_out, move_all, parse_input as parse_robots, part2,
    solve as solve_robots, split_once, Robot, RobotError,
};
use gridpath::secrets::{
    best_price, best_total, buyer_sales, evolve, merge_sales, shsb_random, sum_of_secrets, ROWS,
};
use gridpath::stones::{blink, count_digits, power_of_ten, simulate_blinks, split_number, transform};
use gridpath::towels::{
    arrangements, count_arrangements, count_possible_designs, has_piece, is_possible,
};
use gridpath::trails::{
    calculate_rating, calculate_score, count_paths, height_at, parse_map as parse_trails,
    sum_trailhead_ratings, sum_trailhead_scores, sum_trailheads, uphill_neighbor, valid_neighbors,
};
use gridpath::wordsearch::{count_crosses, count_word, is_cross_at, is_found_at};

fn cs(s: &str) -> Vec<char> {
    s.chars().collect()
}

fn grid(s: &str) -> Vec<Vec<char>> {
    s.lines().map(|l| l.chars().collect()).collect()
}

const CLAWS: &str = "Button A: X+94, Y+34\nButton B: X+22, Y+67\nPrize: X=8400, Y=5400\n\nButton A: X+26, Y+66\nButton B: X+67, Y+21\nPrize: X=12748, Y=12176\n\nButton A: X+17, Y+86\nButton B: X+84, Y+37\nPrize: X=7870, Y=6450\n\nButton A: X+69, Y+23\nButton B: X+27, Y+71\nPrize: X=18641, Y=10279\n";

#[test]
fn test_shsb_random() {
    assert_eq!(shsb_random(123), 15887950);
    assert_eq!(shsb_random(15887950), 16495136);
    assert_eq!(shsb_random(16495136), 527345);
}

#[test]
fn secrets_after_2000_rounds() {
    assert_eq!(evolve(1, 2000), 8685429);
    assert_eq!(evolve(10, 2000), 4700978);
    assert_eq!(evolve(100, 2000), 15273692);
    assert_eq!(evolve(2024, 2000), 8667524);
    assert_eq!(evolve(7, 0), 7);
    assert_eq!(sum_of_secrets(&vec![1, 10, 100, 2024], 2000), 37327623);
    assert_eq!(sum_of_secrets(&vec![], 5), 0);
}

#[test]
fn claw_sample_costs_480() {
    assert_eq!(process_part1(CLAWS), "480");
    let machines = parse_claws(CLAWS);
    assert_eq!(machines.len(), 4);
    assert_eq!(machines[0], ClawMachine { ax: 94, ay: 34, bx: 22, by: 67, px: 8400, py: 5400 });
    assert_eq!(machines[0].solve(100), Some(280));
    assert_eq!(machines[1].solve(100), None);
    assert_eq!(machines[2].solve(100), Some(200));
    assert_eq!(machines[3].solve(100), None);
    assert_eq!(machines[0].solve(79), None);
    assert_eq!(machines[0].solve(80), Some(280));
}

#[test]
fn claw_machines_out_of_the_ordinary() {
    // parallel buttons
    assert_eq!(ClawMachine { ax: 1, ay: 1, bx: 2, by: 2, px: 3, py: 3 }.solve(100), None);
    // a negative number of presses
    assert_eq!(ClawMachine { ax: 1, ay: 0, bx: 0, by: 1, px: -2, py: 3 }.solve(100), None);
    // negative buttons and prize, positive presses
    assert_eq!(ClawMachine { ax: -1, ay: 0, bx: 0, by: -1, px: -2, py: -3 }.solve(100), Some(9));
    assert_eq!(ClawMachine { ax: 1, ay: 0, bx: 0, by: 1, px: 0, py: 0 }.solve(0), Some(0));
    // numbers too large to multiply
    let big = i128::MAX;
    assert_eq!(ClawMachine { ax: big, ay: big, bx: big, by: 1, px: big, py: big }.solve(100), None);
    assert_eq!(
        ClawMachine { ax: i128::MIN, ay: 0, bx: 0, by: 1, px: i128::MIN, py: 1 }.solve(100),
        Some(4)
    );
}

#[test]
fn claw_text_is_read_up_to_the_first_fault() {
    assert_eq!(process_part1(""), "0");
    assert_eq!(process_part1("nothing"), "0");
    let one = "\n\nButton A: X+1, Y+0\nButton B: X+0, Y+1\nPrize: X=2, Y=3";
    assert_eq!(process_part1(one), "9");
    let two = format!("{}\nButton A: X+1, Y+0\nButton B: X+0, Y+1\nPrize: X=1, Y=1\nrest", one);
    assert_eq!(process_part1(&two), "13");
    let broken = format!("{}\nButton A: X+1, Y+0\nButton B: X+0, Y-1\nPrize: X=1, Y=1\n", one);
    assert_eq!(process_part1(&broken), "9");
    let huge = "Button A: X+170141183460469231731687303715884105728, Y+0\nButton B: X+0, Y+1\nPrize: X=2, Y=3";
    assert_eq!(parse_claws(huge).len(), 0);
    let s = cs("Button A: X+1, Y+2\nButton B: X+3, Y+4\nPrize: X=5, Y=6\n");
    let (m, end) = claw_machine_parser(&s, 0).unwrap();
    assert_eq!(m, ClawMachine { ax: 1, ay: 2, bx: 3, by: 4, px: 5, py: 6 });
    assert_eq!(end, s.len());
    assert!(claw_machine_parser(&s, 1).is_none());
}

#[test]
fn computer_runs_and_searches() {
    let mut c = Computer::new(729, 0, 0, vec![0, 1, 5, 4, 3, 0]);
    assert_eq!(c.run(1000), Ok(()));
    assert_eq!(c.output, vec![4, 6, 3, 5, 6, 3, 5, 2, 1, 0]);
    assert_eq!(c.register_a, 0);
    let program = vec![0, 3, 5, 4, 3, 0];
    assert_eq!(solve_for_a(&program, 0, &program), Ok(Some(117440)));
    let mut again = Computer::new(117440, 0, 0, program.clone());
    assert_eq!(again.run(1000), Ok(()));
    assert_eq!(again.output, program);
    assert_eq!(solve_for_a(&vec![], 5, &program), Ok(Some(5)));
    assert_eq!(solve_for_a(&vec![9], 0, &program), Ok(None));
    assert_eq!(solve_for_a(&vec![1], 0, &vec![3, 0]), Err(MachineError::Unsupported));
}

#[test]
fn computer_instructions() {
    let mut c = Computer::new(45, 3, 6, vec![]);
    assert_eq!(c.get_combo_value(2), Some(2));
    assert_eq!(c.get_combo_value(4), Some(45));
    assert_eq!(c.get_combo_value(7), None);
    assert_eq!(c.adv(2), Ok(()));
    assert_eq!((c.register_a, c.ip), (11, 2));
    c.bxl(5);
    assert_eq!(c.register_b, 6);
    c.bxc();
    assert_eq!(c.register_b, 0);
    assert_eq!(c.bst(6), Ok(()));
    assert_eq!(c.register_b, 6);
    assert_eq!(c.out(5), Ok(()));
    assert_eq!(c.output, vec![6]);
    assert_eq!(c.bdv(1), Ok(()));
    assert_eq!(c.register_b, 5);
    assert_eq!(c.cdv(3), Ok(()));
    assert_eq!(c.register_c, 1);
    assert_eq!(c.ip, 14);
    c.jnz(4);
    assert_eq!(c.ip, 4);
    c.register_a = 0;
    c.jnz(4);
    assert_eq!(c.ip, 6);
    assert_eq!(c.out(7), Err(MachineError::InvalidOperand));
    c.register_b = 64;
    assert_eq!(c.adv(5), Err(MachineError::ShiftTooLarge));
    let mut halting = Computer::new(1, 0, 0, vec![9, 9, 5, 0]);
    assert_eq!(halting.run(10), Ok(()));
    assert_eq!(halting.output, Vec::<u8>::new());
    let mut looping = Computer::new(1, 0, 0, vec![3, 0]);
    assert_eq!(looping.run(10), Err(MachineError::OutOfFuel));
    let mut cut = Computer::new(1, 0, 0, vec![5]);
    assert_eq!(cut.run(10), Err(MachineError::Truncated));
    let mut first = Computer::new(9, 0, 0, vec![5, 4, 5, 4]);
    first.output.push(1);
    assert_eq!(first.reverse_eng(), Ok(()));
    assert_eq!(first.output, vec![1]);
    assert_eq!(first.ip, 2);
}

#[test]
fn reports_sample() {
    let reports = vec![
        vec![7, 6, 4, 2, 1],
        vec![1, 2, 7, 8, 9],
        vec![9, 7, 6, 2, 1],
        vec![1, 3, 2, 4, 5],
        vec![8, 6, 4, 4, 1],
        vec![1, 3, 6, 7, 9],
    ];
    let safe: Vec<bool> = reports.iter().map(is_safe_report).collect();
    assert_eq!(safe, vec![true, false, false, false, false, true]);
    let lenient: Vec<bool> = reports.iter().map(can_be_safe_with_dampener).collect();
    assert_eq!(lenient, vec![true, false, false, true, true, true]);
    assert_eq!(count_safe(&reports, false), 2);
    assert_eq!(count_safe(&reports, true), 4);
    assert!(!is_safe_report(&vec![]));
    assert!(!is_safe_report(&vec![5]));
    assert!(is_safe_report(&vec![5, 6]));
    assert!(!is_safe_report(&vec![i32::MIN, i32::MAX]));
    assert!(!can_be_safe_with_dampener(&vec![5]));
    assert!(!can_be_safe_with_dampener(&vec![5, 5]));
    assert!(can_be_safe_with_dampener(&vec![5, 5, 6]));
}

#[test]
fn greatest_common_divisors() {
    assert_eq!(gcd(12, 18), 6);
    assert_eq!(gcd(-12, 18), 6);
    assert_eq!(gcd(12, -18), 6);
    assert_eq!(gcd(0, 7), 7);
    assert_eq!(gcd(7, 0), 7);
    assert_eq!(gcd(0, 0), 0);
    assert_eq!(gcd(17, 5), 1);
    assert_eq!(gcd(i32::MIN, 0), 2147483648);
    assert_eq!(gcd(i32::MIN, i32::MIN), 2147483648);
    assert_eq!(gcd(i32::MIN, 6), 2);
}

#[test]
fn calibration_sample() {
    let input = "190: 10 19\n3267: 81 40 27\n83: 17 5\n156: 15 6\n7290: 6 8 6 15\n161011: 16 10 13\n192: 17 8 14\n21037: 9 7 18 13\n292: 11 6 16 20\n";
    assert_eq!(total_calibration_result(input), Some(3749));
    assert_eq!(total_calibration_result("no equation\n5: 5\n"), Some(5));
    assert_eq!(total_calibration_result("5: x"), None);
    assert_eq!(total_calibration_result("x: 5"), None);
    assert_eq!(total_calibration_result("5: "), Some(0));
    assert_eq!(total_calibration_result("-6: -2 3\n"), Some(-6));
    assert_eq!(evaluate_left_to_right(&vec![81, 40, 27], &vec!['+', '*']), Some(3267));
    assert_eq!(evaluate_left_to_right(&vec![81, 40, 27], &vec!['*', '+']), Some(3267));
    assert_eq!(evaluate_left_to_right(&vec![81, 40, 27], &vec!['*']), Some(3240));
    assert_eq!(evaluate_left_to_right(&vec![4], &vec![]), Some(4));
    assert_eq!(evaluate_left_to_right(&vec![4, 5], &vec!['-']), None);
    assert_eq!(evaluate_left_to_right(&vec![4], &vec!['+']), None);
    assert_eq!(evaluate_left_to_right(&vec![], &vec![]), None);
    assert_eq!(evaluate_left_to_right(&vec![i64::MAX, 1], &vec!['+']), None);
    assert_eq!(evaluate_left_to_right(&vec![i64::MAX, 2], &vec!['*']), None);
    assert!(generate_all_operations(&vec![10, 19], 190));
    assert!(!generate_all_operations(&vec![17, 5], 83));
    assert!(generate_all_operations(&vec![11, 6, 16, 20], 292));
    assert!(generate_all_operations(&vec![7], 7));
    assert!(!generate_all_operations(&vec![7], 8));
    assert!(!generate_all_operations(&vec![], 0));
    assert!(generate_all_operations(&vec![i64::MAX, 1], i64::MAX));
}

#[test]
fn similarity_sample() {
    assert_eq!(calculate_similarity_score(&vec![3, 4, 2, 1, 3, 3], &vec![4, 3, 5, 3, 9, 3]), 31);
    assert_eq!(calculate_similarity_score(&vec![], &vec![1]), 0);
    assert_eq!(calculate_similarity_score(&vec![-2, -2], &vec![-2, -2, -2]), -12);
    assert_eq!(
        calculate_similarity_score(&vec![i32::MAX, i32::MAX], &vec![i32::MAX]),
        2 * (i32::MAX as i128)
    );
    assert_eq!(occurrences(&vec![4, 3, 5, 3, 9, 3], 3), 3);
}

#[test]
fn locks_and_keys_sample() {
    let lock = grid("#####\n.####\n.####\n.####\n.#.#.\n.#...\n.....");
    let key = grid(".....\n#....\n#....\n#...#\n#.#.#\n#.###\n#####");
    let key2 = grid(".....\n.....\n.....\n#....\n#.#..\n#.#.#\n#####");
    let key3 = grid(".....\n.....\n#.#..\n###..\n###.#\n###.#\n#####");
    assert_eq!(key_heights(&key3), Some(vec![4, 3, 4, 0, 2]));
    assert_eq!(lock_heights(&lock), Some(vec![0, 5, 3, 4, 3]));
    assert_eq!(key_heights(&key), Some(vec![5, 0, 2, 1, 3]));
    assert_eq!(key_heights(&key2), Some(vec![3, 0, 2, 0, 1]));
    assert_eq!(lock_heights(&key), None);
    assert_eq!(key_heights(&lock), None);
    assert_eq!(lock_heights(&vec![]), None);
    assert_eq!(key_heights(&vec![]), None);
    assert_eq!(lock_heights(&grid("##\n#.#")), None);
    assert_eq!(lock_heights(&grid("##\n#")), Some(vec![1, 0]));
    assert!(is_full_row(&cs("###")) && is_full_row(&cs("")) && !is_full_row(&cs("#.#")));
    assert!(!lock_fits_key(&vec![0, 5, 3, 4, 3], &vec![5, 0, 2, 1, 3]));
    assert!(lock_fits_key(&vec![0, 5, 3, 4, 3], &vec![3, 0, 2, 0, 1]));
    assert!(lock_fits_key(&vec![9], &vec![]));
    assert!(!lock_fits_key(&vec![usize::MAX], &vec![usize::MAX]));
    let all = LocksAndKeys {
        locks: vec![vec![0, 5, 3, 4, 3], vec![1, 2, 0, 5, 3]],
        keys: vec![vec![5, 0, 2, 1, 3], vec![4, 3, 4, 0, 2], vec![3, 0, 2, 0, 1]],
    };
    assert_eq!(count_fitting_pairs(&all), 3);
}

#[test]
fn towels_sample() {
    let patterns: Vec<Vec<char>> =
        ["r", "wr", "b", "g", "bwu", "rb", "gb", "br"].iter().map(|p| cs(p)).collect();
    let designs: Vec<Vec<char>> =
        ["brwrr", "bggr", "gbbr", "rrbgbr", "ubwu", "bwurrg", "brgr", "bbrgwb"]
            .iter()
            .map(|p| cs(p))
            .collect();
    assert_eq!(count_possible_designs(&patterns, &designs), 6);
    assert_eq!(count_arrangements(&patterns, &designs), Some(16));
    let ways: Vec<Option<u128>> = designs.iter().map(|d| arrangements(&patterns, d)).collect();
    assert_eq!(
        ways,
        vec![Some(2), Some(1), Some(4), Some(6), Some(0), Some(1), Some(2), Some(0)]
    );
    assert!(is_possible(&patterns, &cs("")));
    assert!(!is_possible(&vec![], &cs("r")));
    assert!(is_possible(&vec![], &cs("")));
    assert!(has_piece(&patterns, &cs("xbwux"), 1, 4));
    assert!(!has_piece(&patterns, &cs("xbwux"), 1, 3));
    // equal patterns count once
    assert_eq!(arrangements(&vec![cs("a"), cs("a"), cs("aa")], &cs("aa")), Some(2));
    // 200 letters laid out from "a" and "aa" in more ways than 128 bits hold
    let long: Vec<char> = std::iter::repeat('a').take(200).collect();
    assert_eq!(arrangements(&vec![cs("a"), cs("aa")], &long), None);
    assert_eq!(count_arrangements(&vec![cs("a"), cs("aa")], &vec![long]), None);
}

#[test]
fn wordsearch_sample() {
    let g = grid("MMMSXXMASM\nMSAMXMSMSA\nAMXSXMAAMM\nMSAMASMSMX\nXMASAMXAMM\nXXAMMXXAMA\nSMSMSASXSS\nSAXAMASAAA\nMAMMMXMMMM\nMXMXAXMASX");
    assert_eq!(count_word(&g, &cs("XMAS")), Some(18));
    assert_eq!(count_crosses(&g), 9);
    assert!(is_found_at(&g, &cs("XMAS"), 0, 5, 0));
    assert!(!is_found_at(&g, &cs("XMAS"), 0, 5, 1));
    assert!(is_found_at(&g, &cs("XMAS"), 9, 9, 7));
    assert!(is_cross_at(&g, 1, 2));
    assert!(!is_cross_at(&g, 0, 0));
    assert_eq!(count_word(&vec![], &cs("XMAS")), Some(0));
    assert_eq!(count_word(&g, &cs("")), Some(800));
    assert_eq!(count_word(&grid("XMAS\nX"), &cs("X")), Some(16));
    assert_eq!(count_crosses(&vec![]), 0);
    assert_eq!(count_crosses(&grid("M.S\n.A.\nM.S")), 1);
    assert_eq!(count_crosses(&grid("M.S\n.A.\nS.M")), 0);
    assert_eq!(count_crosses(&grid("M.S\n.A.")), 0);
    assert_eq!(count_crosses(&grid("A")), 0);
}

#[test]
fn trails_sample() {
    let map = parse_trails("89010123\n78121874\n87430965\n96549874\n45678903\n32019012\n01329801\n10456732\n").unwrap();
    assert_eq!(sum_trailheads(&map, false), Some(36));
    assert_eq!(sum_trailheads(&map, true), Some(81));
    assert_eq!(sum_trailhead_scores(&map), Some(36));
    assert_eq!(sum_trailhead_ratings(&map), Some(81));
    assert_eq!(calculate_score(&map, 0, 2), 5);
    assert_eq!(calculate_score(&map, 0, 4), 6);
    assert_eq!(calculate_rating(&map, 0, 2), 20);
    assert_eq!(calculate_rating(&map, 0, 4), 24);
    assert_eq!(calculate_score(&map, 0, 1), 0);
    assert_eq!(calculate_rating(&map, 0, 1), 1);
    assert_eq!(calculate_score(&map, 50, 50), 0);
    assert_eq!(calculate_rating(&map, 50, 50), 0);
    assert_eq!(valid_neighbors(&map, 0, 2), vec![(0, 3), (1, 2)]);
    assert_eq!(valid_neighbors(&map, 0, 0), vec![(0, 1)]);
    assert_eq!(valid_neighbors(&map, 7, 1), vec![(7, 0), (6, 1)]);
    assert_eq!(valid_neighbors(&map, 50, 50), vec![]);
    assert_eq!(uphill_neighbor(&map, (0, 2), 1), Some((1, 2)));
    assert_eq!(uphill_neighbor(&map, (0, 2), 0), Some((0, 3)));
    assert_eq!(uphill_neighbor(&map, (0, 2), 2), None);
    assert_eq!(height_at(&map, 0, 0), Some(8));
    assert_eq!(height_at(&map, 8, 0), None);
    let mut memo = vec![vec![None; 8]; 8];
    assert_eq!(count_paths(&map, 0, 2, &mut memo), 20);
    assert_eq!(memo[0][2], Some(20));
    assert_eq!(count_paths(&map, 0, 2, &mut memo), 20);
    assert!(parse_trails("12\n3x").is_none());
    assert_eq!(parse_trails(""), Some(vec![]));
    assert_eq!(parse_trails("01\n\n2"), Some(vec![vec![0, 1], vec![], vec![2]]));
}

#[test]
fn stones_sample() {
    assert_eq!(simulate_blinks(vec![125, 17], 6), Some(22));
    assert_eq!(simulate_blinks(vec![125, 17], 25), Some(55312));
    assert_eq!(simulate_blinks(vec![125, 17], 0), Some(2));
    assert_eq!(simulate_blinks(vec![], 9), Some(0));
    assert_eq!(simulate_blinks(vec![u64::MAX / 1000], 1), None);
    assert_eq!(blink(&vec![0, 1, 10, 99, 999]), Some(vec![1, 2024, 1, 0, 9, 9, 2021976]));
    assert_eq!(transform(0), Some(vec![1]));
    assert_eq!(transform(1000), Some(vec![10, 0]));
    assert_eq!(transform(u64::MAX), Some(vec![1844674407, 3709551615]));
    assert_eq!(transform(999_999_999_999_999_999), Some(vec![999_999_999, 999_999_999]));
    assert_eq!(transform(100_000_000_000_000_000), Some(vec![100_000_000, 0]));
    assert_eq!(transform(10_000_000_000_000_000_000), Some(vec![1_000_000_000, 0]));
    assert_eq!(transform(9_999_999_999_999_999_999), None);
    assert_eq!(transform(99_999_999_999_999_999), None);
    assert_eq!(split_number(1234), (12, 34));
    assert_eq!(split_number(12345), (12, 345));
    assert_eq!(split_number(7), (0, 7));
    assert_eq!(split_number(0), (0, 0));
    assert_eq!(count_digits(0), 1);
    assert_eq!(count_digits(9), 1);
    assert_eq!(count_digits(10), 2);
    assert_eq!(count_digits(u64::MAX), 20);
    assert_eq!(power_of_ten(0), 1);
    assert_eq!(power_of_ten(19), 10_000_000_000_000_000_000);
}

#[test]
fn robots_move_and_are_counted() {
    let mut r = Robot { x: 2, y: 4, vx: 2, vy: -3 };
    r.move_once();
    assert_eq!((r.x, r.y), (4, 1));
    r.move_once();
    assert_eq!((r.x, r.y), (6, 101));
    let mut edge = Robot { x: 100, y: 0, vx: 1, vy: 0 };
    assert!(edge.try_move());
    assert_eq!((edge.x, edge.y), (0, 0));
    let mut far = Robot { x: i16::MAX, y: 0, vx: i16::MAX, vy: 0 };
    assert!(!far.try_move());
    assert_eq!(far.x, i16::MAX);
    let robots = parse_robots("p=0,0 v=1,1\np=100,0 v=-1,1\np=0,102 v=1,-1\np=100,102 v=-1,-1\np=50,0 v=0,0\np=0,51 v=0,0\n").unwrap();
    assert_eq!(robots.len(), 6);
    assert_eq!(robots[1], Robot { x: 100, y: 0, vx: -1, vy: 1 });
    let moved = move_all(&robots, 100).unwrap();
    assert_eq!((moved[0].x, moved[0].y), (100, 100));
    assert_eq!((moved[1].x, moved[1].y), (0, 100));
    assert_eq!((moved[2].x, moved[2].y), (100, 2));
    assert_eq!((moved[3].x, moved[3].y), (0, 2));
    assert_eq!(count_quadrants(&moved), 1);
    assert_eq!(count_quadrants(&vec![]), 0);
    assert_eq!(solve_robots("p=0,0 v=1,1\np=100,0 v=-1,1\np=0,102 v=1,-1\np=100,102 v=-1,-1"), Ok(1));
    assert_eq!(solve_robots("p=1,1 v=0,0\np=2,2 v=0,0\np=60,1 v=0,0\np=1,60 v=0,0\np=60,60 v=0,0\np=61,61 v=0,0\np=62,62 v=0,0"), Ok(6));
    assert_eq!(solve_robots("p=0,0 v=1"), Err(RobotError::BadInput));
    assert_eq!(solve_robots("p=0,0 v=32767,0"), Err(RobotError::OutOfRange));
    assert_eq!(solve_robots(""), Ok(0));
    assert_eq!(split_once(&cs("a=b=c"), '='), Some((cs("a"), cs("b=c"))));
    assert_eq!(split_once(&cs("abc"), '='), None);
}

#[test]
fn robots_spread_out() {
    let robots = vec![
        Robot { x: 0, y: 0, vx: 1, vy: 0 },
        Robot { x: 2, y: 0, vx: 0, vy: 0 },
        Robot { x: 4, y: 0, vx: -1, vy: 0 },
    ];
    assert!(is_spread_out(&robots));
    // after 2 seconds all three meet; after 1 and 3 none do, and after 4 two meet
    assert_eq!(part2(&robots, 10), Some(1));
    let pair = vec![Robot { x: 0, y: 0, vx: 0, vy: 0 }, Robot { x: 0, y: 0, vx: 0, vy: 0 }];
    assert!(!is_spread_out(&pair));
    assert_eq!(part2(&pair, 10), None);
    let late = vec![Robot { x: 0, y: 0, vx: 1, vy: 0 }, Robot { x: 1, y: 0, vx: 0, vy: 0 }];
    assert_eq!(part2(&late, 10), Some(2));
    assert_eq!(part2(&late, 1), None);
    assert_eq!(part2(&vec![], 3), Some(1));
    assert_eq!(part2(&vec![], 0), None);
}

const ANTENNAS: &str = "............\n........0...\n.....0......\n.......0....\n....0.......\n......A.....\n............\n............\n........A...\n.........A..\n............\n............";

#[test]
fn antinodes_sample() {
    let map = grid(ANTENNAS);
    assert_eq!(find_antennas(&map, false).len(), 7);
    assert_eq!(find_antennas(&map, false)[0], (8, 1, '0'));
    assert_eq!(count_antinodes(&map), Some(14));
    assert_eq!(count_resonant_antinodes(&map), Some(34));
}

#[test]
fn antinodes_of_small_maps() {
    assert_eq!(count_antinodes(&grid("")), Some(0));
    assert_eq!(count_resonant_antinodes(&grid("")), Some(0));
    assert_eq!(count_antinodes(&grid("....\n.aa.\n....")), Some(2));
    assert_eq!(count_resonant_antinodes(&grid("....\n.aa.\n....")), Some(4));
    assert_eq!(count_antinodes(&grid("a.a.a")), Some(2));
    assert_eq!(count_resonant_antinodes(&grid("a.a.a")), Some(5));
    assert_eq!(count_resonant_antinodes(&grid("a...a")), Some(5));
    assert_eq!(count_antinodes(&grid("a..\n...\n..a")), Some(0));
    assert_eq!(count_resonant_antinodes(&grid("a..\n...\n..a")), Some(3));
    assert_eq!(count_antinodes(&grid("a.A")), Some(0));
    assert_eq!(count_resonant_antinodes(&grid("a.A")), Some(0));
    assert_eq!(count_antinodes(&grid("#.#..")), Some(0));
    assert_eq!(count_resonant_antinodes(&grid("#.#..")), None);
    assert_eq!(count_antinodes(&grid("\u{e9}.\u{e9}..")), Some(1));
    assert_eq!(count_antinodes(&grid("\u{e9}.\u{e9}.")), Some(1));
    assert_eq!(count_antinodes(&grid("a.a.")), Some(0));
    assert_eq!(width_in_bytes(&cs("a\u{e9}\u{20ac}\u{1f600}")), Some(10));
    assert_eq!(count_resonant_antinodes(&grid("\u{e9}.\u{e9}..")), None);
}

/// The price after each step and the change that led to it, by the rule alone.
fn prices_of(seed: u64, rounds: usize) -> Vec<i64> {
    let mut out = vec![(seed % 10) as i64];
    let mut s = seed;
    for _ in 0..rounds {
        s = shsb_random(s);
        out.push((s % 10) as i64);
    }
    out
}

/// What the buyers sell for to one who waits for `key`, the newest change first.
fn fetched(seeds: &[u64], rounds: usize, key: [i64; 4]) -> u128 {
    let mut total = 0;
    for &seed in seeds {
        let p = prices_of(seed, rounds);
        for i in 4..rounds {
            let w = [p[i + 1] - p[i], p[i] - p[i - 1], p[i - 1] - p[i - 2], p[i - 2] - p[i - 3]];
            if w == key {
                total += p[i + 1] as u128;
                break;
            }
        }
    }
    total
}

#[test]
fn best_price_of_the_sample_buyers() {
    let seeds = vec![1, 2, 3, 2024];
    assert_eq!(best_price(&seeds, 2000), 23);
    // the changes -2, 1, -1, 3 in the order they happen fetch 7 + 7 + 9
    assert_eq!(fetched(&seeds, 2000, [3, -1, 1, -2]), 23);
    assert_eq!(best_price(&vec![], 2000), 0);
    assert_eq!(best_price(&seeds, 0), 0);
    assert_eq!(best_price(&seeds, 4), 0);
}

#[test]
fn best_price_skips_the_first_four_changes() {
    // 123 offers 3, 0, 6, 5, 4, 4, 6, 4, 4, 2
    assert_eq!(prices_of(123, 9), vec![3, 0, 6, 5, 4, 4, 6, 4, 4, 2]);
    // after five steps only the changes 6, -1, -1, 0 have been looked at
    assert_eq!(best_price(&vec![123], 5), 4);
    assert_eq!(fetched(&[123], 5, [0, -1, -1, 6]), 4);
    // the changes -3, 6, -1, -1 of the first four steps fetch nothing
    assert_eq!(fetched(&[123], 9, [-1, -1, 6, -3]), 0);
    assert_eq!(best_price(&vec![123], 9), 6);
    assert_eq!(best_price(&vec![123, 123], 9), 12);
}

#[test]
fn best_price_is_the_most_that_any_changes_fetch() {
    let seeds = vec![7, 77, 777, 16777215, 123456789012];
    let best = best_price(&seeds, 60);
    let mut most = 0;
    for a in -9..=9 {
        for b in -9..=9 {
            for c in -9..=9 {
                for d in -9..=9 {
                    most = most.max(fetched(&seeds, 60, [a, b, c, d]));
                }
            }
        }
    }
    assert_eq!(best, most);
}

const NETWORK: &str = "kh-tc\nqp-kh\nde-cg\nka-co\nyn-aq\nqp-ub\ncg-tb\nvc-aq\ntb-ka\nwh-tc\nyn-cg\nkh-ub\nta-co\nde-co\ntc-td\ntb-wq\nwh-td\nta-ka\ntd-qp\naq-cg\nwq-ub\nub-vc\nde-ta\nwq-aq\nwq-vc\nwh-yn\nka-de\nkh-ta\nco-tc\nwh-qp\ntb-vc\ntd-yn\n";

fn names_of(net: &gridpath::network::Network, party: &[usize]) -> Vec<String> {
    let mut names: Vec<String> = party.iter().map(|&i| net.names[i].iter().collect()).collect();
    names.sort();
    names
}

#[test]
fn network_sample_has_seven_groups_with_a_t() {
    let net = parse_links(NETWORK).unwrap();
    assert_eq!(net.links.len(), 32);
    assert_eq!(net.names.len(), 16);
    assert_eq!(net.names[0], cs("kh"));
    assert_eq!(net.names[1], cs("tc"));
    assert_eq!(net.names[2], cs("qp"));
    assert_eq!(net.links[0], (0, 1));
    assert_eq!(net.links[1], (2, 0));
    assert_eq!(count_groups(&net.names, &net.links), Some(7));
}

#[test]
fn network_sample_largest_party() {
    let net = parse_links(NETWORK).unwrap();
    // visiting co, de, ka and ta first, the party round co takes in the other three
    let mut order: Vec<usize> =
        ["co", "de", "ka", "ta"].iter().map(|n| find_name(&net.names, &cs(n)).unwrap()).collect();
    let rest: Vec<usize> = (0..net.names.len()).filter(|i| !order.contains(i)).collect();
    order.extend(rest);
    let parties = grow_parties(&net.links, net.names.len(), &order).unwrap();
    assert_eq!(parties.len(), 16);
    let best = largest_party(&parties).unwrap();
    assert_eq!(best, 0);
    assert_eq!(names_of(&net, &parties[best]), vec!["co", "de", "ka", "ta"]);
    // visiting them as the lines name them, no party grows beyond three
    let order: Vec<usize> = (0..net.names.len()).collect();
    let parties = grow_parties(&net.links, net.names.len(), &order).unwrap();
    let best = largest_party(&parties).unwrap();
    assert_eq!(parties[best].len(), 3);
    let table = link_table(&net.links, net.names.len());
    for party in &parties {
        for &a in party {
            for &b in party {
                assert!(a == b || table[a][b]);
            }
        }
    }
}

#[test]
fn network_lines_need_a_hyphen() {
    assert!(parse_links("ab-cd\nef\n").is_none());
    assert!(parse_links("ab-cd\n\nef-gh").is_none());
    let net = parse_links("").unwrap();
    assert!(net.names.is_empty() && net.links.is_empty());
    assert_eq!(count_groups(&net.names, &net.links), Some(0));
    // what follows a second hyphen is not read
    let net = parse_links("a-b-c\n-\nb-").unwrap();
    assert_eq!(net.names, vec![cs("a"), cs("b"), cs("")]);
    assert_eq!(net.links, vec![(0, 1), (2, 2), (1, 2)]);
    assert_eq!(count_groups(&net.names, &net.links), None);
}

#[test]
fn network_groups_are_counted_once() {
    let names = vec![cs("ta"), cs("b"), cs("c"), cs("d"), cs("t")];
    let links = vec![(0, 1), (1, 2), (2, 0), (1, 0), (2, 3), (1, 3), (3, 4)];
    // ta-b-c has a t; b-c-d has none
    assert_eq!(count_groups(&names, &links), Some(1));
    let links = vec![(0, 1), (1, 2), (2, 0), (2, 3), (1, 3), (3, 4), (4, 2)];
    // and now c-d-t too
    assert_eq!(count_groups(&names, &links), Some(2));
    assert_eq!(count_groups(&names, &vec![(0, 5)]), None);
    assert_eq!(count_groups(&names, &vec![(1, 1)]), None);
    assert_eq!(count_groups(&names, &vec![]), Some(0));
    let table = link_table(&links, 5);
    assert!(table[0][1] && table[1][0] && table[4][2] && !table[0][3] && !table[0][0]);
    assert!(fits(&table, 2, &vec![0, 1, 3, 4]));
    assert!(!fits(&table, 2, &vec![0, 1, 2]));
    assert!(fits(&table, 2, &vec![]));
}

#[test]
fn network_parties_grow_in_visiting_order() {
    // a-b, b-c, a-c, c-d
    let links = vec![(0, 1), (1, 2), (0, 2), (2, 3)];
    assert_eq!(
        grow_parties(&links, 4, &vec![0, 1, 2, 3]),
        Some(vec![vec![0, 1, 2], vec![1, 2], vec![2, 3], vec![3]])
    );
    assert_eq!(
        grow_parties(&links, 4, &vec![3, 2, 1, 0]),
        Some(vec![vec![3, 2], vec![2, 1, 0], vec![1, 0], vec![0]])
    );
    assert_eq!(grow_parties(&links, 4, &vec![]), Some(vec![]));
    assert_eq!(grow_parties(&links, 4, &vec![4]), None);
    assert_eq!(grow_parties(&links, 3, &vec![0]), None);
    assert_eq!(largest_party(&vec![vec![3, 2], vec![2, 1, 0], vec![1, 0], vec![0]]), Some(1));
    assert_eq!(largest_party(&vec![vec![1], vec![1, 2], vec![3, 4], vec![5]]), Some(2));
    assert_eq!(largest_party(&vec![]), None);
}

#[test]
fn network_names_are_kept_once() {
    let mut names = vec![cs("ab"), cs("cd")];
    assert_eq!(find_name(&names, &cs("cd")), Some(1));
    assert_eq!(find_name(&names, &cs("c")), None);
    assert_eq!(intern(&mut names, cs("ab")), 0);
    assert_eq!(intern(&mut names, cs("ef")), 2);
    assert_eq!(intern(&mut names, cs("ef")), 2);
    assert_eq!(names, vec![cs("ab"), cs("cd"), cs("ef")]);
    assert!(same_text(&cs("abc"), &cs("abc")));
    assert!(!same_text(&cs("abc"), &cs("abd")));
    assert!(!same_text(&cs("abc"), &cs("ab")));
    assert!(!same_text(&cs("ab"), &cs("abc")));
}

/// The place of four changes, the newest first, in the table of a buyer.
fn place_of(key: [i64; 4]) -> usize {
    key.iter().fold(0, |at, d| at * 19 + (d + 9) as usize)
}

#[test]
fn buyers_sell_once_for_each_row_of_changes() {
    let sales = buyer_sales(123, 9);
    assert_eq!(sales.len(), ROWS);
    assert_eq!(ROWS, 19 * 19 * 19 * 19);
    // 123 offers 3, 0, 6, 5, 4, 4, 6, 4, 4, 2
    assert_eq!(sales[place_of([0, -1, -1, 6])], 4);
    assert_eq!(sales[place_of([2, 0, -1, -1])], 6);
    assert_eq!(sales[place_of([-2, 2, 0, -1])], 4);
    assert_eq!(sales[place_of([0, -2, 2, 0])], 4);
    assert_eq!(sales[place_of([-2, 0, -2, 2])], 2);
    assert_eq!(sales[place_of([-1, -1, 6, -3])], 0);
    assert_eq!(sales.iter().filter(|&&v| v > 0).count(), 5);
    assert_eq!(buyer_sales(123, 4).iter().sum::<u128>(), 0);
    for key in [[3, -1, 1, -2], [0, 0, 0, 0], [9, -9, 9, -9]] {
        assert_eq!(buyer_sales(2024, 2000)[place_of(key)], fetched(&[2024], 2000, key));
    }
}

#[test]
fn tables_are_added_place_by_place() {
    assert_eq!(merge_sales(&vec![1, 2, 3], &vec![10, 20, 30]), Some(vec![11, 22, 33]));
    assert_eq!(merge_sales(&vec![], &vec![]), Some(vec![]));
    assert_eq!(merge_sales(&vec![1], &vec![1, 2]), None);
    assert_eq!(merge_sales(&vec![u128::MAX], &vec![0]), Some(vec![u128::MAX]));
    assert_eq!(merge_sales(&vec![0, u128::MAX], &vec![0, 1]), None);
    assert_eq!(best_total(&vec![3, 9, 2, 9]), 9);
    assert_eq!(best_total(&vec![]), 0);
    let seeds = [1, 2, 3, 2024];
    let mut totals = vec![0; ROWS];
    for seed in seeds {
        totals = merge_sales(&totals, &buyer_sales(seed, 2000)).unwrap();
    }
    assert_eq!(best_total(&totals), 23);
    assert_eq!(best_price(&seeds.to_vec(), 2000), 23);
}

#[test]
fn computers_are_visited_from_the_last_key_on() {
    // 0-1, 1-2, 0-2, 2-3, and 4 alone
    let links = vec![(0, 1), (1, 2), (0, 2), (2, 3)];
    // from 0: its links 1 and 2 wait, 2 is taken first, then 3, then 1; 4 comes last
    assert_eq!(visiting_order(&links, 5, &vec![4, 0]), Some(vec![0, 2, 3, 1, 4]));
    assert_eq!(visiting_order(&links, 5, &vec![0, 4]), Some(vec![4, 0, 2, 3, 1]));
    assert_eq!(visiting_order(&links, 5, &vec![0, 1, 2, 3, 4]), Some(vec![4, 3, 2, 1, 0]));
    assert_eq!(visiting_order(&links, 5, &vec![3]), Some(vec![3, 2, 1, 0]));
    assert_eq!(visiting_order(&links, 5, &vec![3, 3, 3]), Some(vec![3, 2, 1, 0]));
    assert_eq!(visiting_order(&links, 5, &vec![]), Some(vec![]));
    assert_eq!(visiting_order(&links, 5, &vec![5]), None);
    assert_eq!(visiting_order(&links, 3, &vec![0]), None);
    assert_eq!(visiting_order(&vec![(1, 1)], 2, &vec![1, 0]), Some(vec![0, 1]));
    // the parties that grow in that order
    let order = visiting_order(&links, 5, &vec![4, 0]).unwrap();
    let parties = grow_parties(&links, 5, &order).unwrap();
    assert_eq!(parties[0], vec![0, 2, 1]);
    assert_eq!(largest_party(&parties), Some(0));
}
