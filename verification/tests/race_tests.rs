use gridpath::race::{find_last, get_count_of_ways_to_cheat, get_value, Direction, Part, Race};

fn matrix(lines: &[String]) -> Vec<Vec<char>> {
    lines.iter().map(|l| l.chars().collect()).collect()
}

fn hairpin() -> Vec<Vec<char>> {
    let top = format!("S{}", ".".repeat(150));
    let mid = format!("{}.", "#".repeat(150));
    let bottom = format!("E{}", ".".repeat(150));
    matrix(&[top, mid, bottom])
}

#[test]
fn directions_and_units() {
    assert_eq!(
        Direction::all(),
        [Direction::UP, Direction::RIGHT, Direction::DOWN, Direction::LEFT]
    );
    assert_eq!(Direction::UP.unit(), (-1, 0));
    assert_eq!(Direction::RIGHT.unit(), (0, 1));
    assert_eq!(Direction::DOWN.unit(), (1, 0));
    assert_eq!(Direction::LEFT.unit(), (0, -1));
    assert_eq!(Direction::default(), Direction::UP);
}

#[test]
fn hairpin_course_is_found() {
    let mut race = Race::from_input(&hairpin()).unwrap();
    assert_eq!(race.find_path(), Some(()));
    let course = race.course();
    assert_eq!(course.len(), 303);
    assert_eq!(course[0], (0, 0));
    assert_eq!(course[150], (0, 150));
    assert_eq!(course[151], (1, 150));
    assert_eq!(course[152], (2, 150));
    assert_eq!(course[302], (2, 0));
}

#[test]
fn hairpin_has_101_short_cheats() {
    let mut race = Race::from_input(&hairpin()).unwrap();
    race.find_path();
    assert_eq!(get_count_of_ways_to_cheat(&race, 2), 101);
    assert_eq!(get_count_of_ways_to_cheat(&race, 1), 0);
}

#[test]
fn straight_track_has_no_cheats() {
    let line = format!("S{}E", ".".repeat(200));
    let mut race = Race::from_input(&matrix(&[line])).unwrap();
    race.find_path();
    assert_eq!(race.course().len(), 202);
    assert_eq!(get_count_of_ways_to_cheat(&race, 20), 0);
}

#[test]
fn course_without_a_way_is_the_end_alone() {
    let mut race = Race::from_input(&matrix(&["S#E".to_string()])).unwrap();
    assert_eq!(race.find_path(), Some(()));
    assert_eq!(race.course(), &vec![(0, 2)]);
    assert_eq!(get_count_of_ways_to_cheat(&race, 2), 0);
}

#[test]
fn ragged_and_empty_input() {
    assert!(Race::from_input(&vec![]).is_none());
    let mut race = Race::from_input(&matrix(&["".to_string(), "S.".to_string(), ".E.".to_string()])).unwrap();
    race.find_path();
    assert_eq!(race.course().len(), 3);
    assert_eq!(race.course()[0], (1, 0));
    assert_eq!(race.course()[2], (2, 1));
    let mut blank = Race::from_input(&matrix(&["".to_string()])).unwrap();
    blank.find_path();
    assert_eq!(blank.course(), &vec![(0, 0)]);
}

#[test]
fn last_marker_wins() {
    let m = matrix(&["S.S".to_string(), ".S.".to_string()]);
    assert_eq!(find_last(&m, 'S'), (1, 1));
    assert_eq!(find_last(&m, 'E'), (0, 0));
}

/// A small race track of 85 places.
const TRACK: [&str; 15] = [
    "###############",
    "#...#...#.....#",
    "#.#.#.#.#.###.#",
    "#S#...#.#.#...#",
    "#######.#.#.###",
    "#######.#.#...#",
    "#######.#.###.#",
    "###..E#...#...#",
    "###.#######.###",
    "#...###...#...#",
    "#.#####.#.###.#",
    "#.#...#.#.#...#",
    "#.#.#.#.#.#.###",
    "#...#...#...###",
    "###############",
];

fn track() -> Vec<Vec<char>> {
    TRACK.iter().map(|l| l.chars().collect()).collect()
}

#[test]
fn returns_expected_value_test_data_for_part_1() {
    let value = get_value(&track(), Part::Part1);
    assert_eq!(value, Some(0));
}

#[test]
fn returns_expected_value_test_data_for_part_2() {
    let value = get_value(&track(), Part::Part2);
    assert_eq!(value, Some(0));
}

#[test]
fn small_track_is_run_in_84_steps() {
    let mut race = Race::from_input(&track()).unwrap();
    race.find_path();
    assert_eq!(race.course().len(), 85);
    assert_eq!(race.course()[0], (3, 1));
    assert_eq!(race.course()[84], (7, 5));
}

#[test]
fn value_of_the_hairpin() {
    assert_eq!(get_value(&hairpin(), Part::Part1), Some(101));
    assert_eq!(get_value(&vec![], Part::Part1), None);
    assert_eq!(get_value(&vec![], Part::Part2), None);
    let line: Vec<char> = format!("S{}E", ".".repeat(200)).chars().collect();
    assert_eq!(get_value(&vec![line], Part::Part2), Some(0));
    assert!(get_value(&hairpin(), Part::Part2).unwrap() > 101);
}
