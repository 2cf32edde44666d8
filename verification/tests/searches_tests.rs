use gridpath::memory::{
    find_first_blocking_byte, find_shortest_path, heuristic, parse_bytes, path_exists,
    simulate_corruption,
};
use gridpath::reindeer::{
    find_path, get_neighbors, parse_map, turn_left as reindeer_left, turn_right as reindeer_right,
    Direction, Thing,
};

const SAMPLE: &str = "###############\n#.......#....E#\n#.#.###.#.###.#\n#.....#.#...#.#\n#.###.#####.#.#\n#.#.#.......#.#\n#.#.#####.###.#\n#...........#.#\n###.#.#####.#.#\n#...#.....#.#.#\n#.#.#.###.#.#.#\n#.....#...#.#.#\n#.###.#.#.#.#.#\n#S..#.....#...#\n###############";

const BYTES: &str = "5,4\n4,2\n4,5\n3,0\n2,1\n6,3\n2,4\n1,5\n0,6\n3,3\n2,6\n5,1\n1,2\n5,5\n2,5\n6,5\n1,4\n0,4\n6,4\n1,1\n6,1\n1,0\n0,5\n1,6\n2,0\n";

#[test]
fn reindeer_sample_costs_7036() {
    let (map, robot, end) = parse_map(SAMPLE).unwrap();
    assert_eq!((robot.x, robot.y, robot.thing), (1, 13, Thing::Robot));
    assert_eq!((end.x, end.y, end.thing), (13, 1, Thing::End));
    assert_eq!(map.width(), 15);
    assert_eq!(map.height(), 15);
    let (cost, path) = find_path(&map, robot, end).unwrap();
    assert_eq!(cost, 7036);
    assert_eq!(path.len(), 37);
    assert_eq!(path[0], (1, 13));
    assert_eq!(path[36], (13, 1));
}

#[test]
fn reindeer_turns_on_the_spot() {
    // the end lies behind the robot: two quarter turns and two steps
    let (map, robot, end) = parse_map("#####\n#E.S#\n#####").unwrap();
    assert_eq!(find_path(&map, robot, end), Some((2002, vec![(3, 1), (2, 1), (1, 1)])));
    let (map, robot, end) = parse_map("E.S").unwrap();
    assert_eq!(find_path(&map, robot, end), Some((2002, vec![(2, 0), (1, 0), (0, 0)])));
    // a loop to walk round makes no difference
    let (map, robot, end) = parse_map("#...\nES..\n#...").unwrap();
    assert_eq!(find_path(&map, robot, end), Some((2001, vec![(1, 1), (0, 1)])));
    // straight ahead, and one turn to the north or south
    let (map, robot, end) = parse_map("S..E").unwrap();
    assert_eq!(find_path(&map, robot, end), Some((3, vec![(0, 0), (1, 0), (2, 0), (3, 0)])));
    let (map, robot, end) = parse_map("E\n.\nS").unwrap();
    assert_eq!(find_path(&map, robot, end), Some((1002, vec![(0, 2), (0, 1), (0, 0)])));
    let (map, robot, end) = parse_map("S\n.\nE").unwrap();
    assert_eq!(find_path(&map, robot, end), Some((1002, vec![(0, 0), (0, 1), (0, 2)])));
    // walled in
    let (map, robot, end) = parse_map("S#E").unwrap();
    assert_eq!(find_path(&map, robot, end), None);
}

#[test]
fn reindeer_start_is_end_and_off_map() {
    let (map, robot, _) = parse_map("SE").unwrap();
    assert_eq!(find_path(&map, robot, robot), Some((0, vec![(0, 0)])));
    let mut away = robot;
    away.x = 5;
    assert_eq!(find_path(&map, away, robot), None);
    assert_eq!(find_path(&map, robot, away), None);
}

#[test]
fn reindeer_map_is_read() {
    assert!(parse_map("").is_none());
    assert!(parse_map("S.\nE").is_none());
    // a map needs its start and its end
    assert!(parse_map("..\n#.").is_none());
    assert!(parse_map("S.\n#.").is_none());
    assert!(parse_map("..\n#E").is_none());
    let (map, robot, end) = parse_map("S.\n#E").unwrap();
    assert_eq!((robot.x, robot.y, robot.thing), (0, 0, Thing::Robot));
    assert_eq!((end.x, end.y, end.thing), (1, 1, Thing::End));
    assert_eq!(map.width(), 2);
    assert_eq!(map.height(), 2);
    assert_eq!(map.get(0, 0).unwrap().thing, Thing::Robot);
    assert_eq!(map.get(0, 1).unwrap().thing, Thing::Wall);
    assert_eq!(map.get(1, 0).unwrap().thing, Thing::Empty);
    assert_eq!(map.get(1, 1).unwrap().thing, Thing::End);
    assert!(map.get(2, 0).is_none());
    assert!(map.get(0, -1).is_none());
    let (_, robot, end) = parse_map("SE\nES").unwrap();
    assert_eq!((robot.x, robot.y), (1, 1));
    assert_eq!((end.x, end.y), (0, 1));
}

#[test]
fn reindeer_neighbors_in_order() {
    let (map, _, _) = parse_map("S..\n.#.\n..E").unwrap();
    assert_eq!(
        get_neighbors((0, 0), Direction::East, true, &map),
        vec![((1, 0), Direction::East), ((0, 0), Direction::North), ((0, 0), Direction::South)]
    );
    // a wall ahead leaves the two turns
    assert_eq!(
        get_neighbors((1, 0), Direction::South, false, &map),
        vec![((1, 0), Direction::East), ((1, 0), Direction::West)]
    );
    assert_eq!(
        get_neighbors((0, 0), Direction::West, false, &map),
        vec![((0, 0), Direction::South), ((0, 0), Direction::North)]
    );
    assert_eq!(reindeer_left(Direction::North), Direction::West);
    assert_eq!(reindeer_right(Direction::North), Direction::East);
    assert_eq!(reindeer_left(Direction::East), Direction::North);
    assert_eq!(reindeer_right(Direction::West), Direction::North);
}

#[test]
fn memory_sample() {
    let bytes = parse_bytes(BYTES).unwrap();
    assert_eq!(bytes.len(), 25);
    assert_eq!(bytes[0], (5, 4));
    let corrupted = simulate_corruption(&bytes, 12);
    assert_eq!(corrupted.len(), 12);
    assert_eq!(find_shortest_path(&corrupted, 7), Some(22));
    assert!(path_exists(&corrupted, 7));
    assert_eq!(find_first_blocking_byte(&bytes, 7), Some((6, 1)));
    assert_eq!(simulate_corruption(&bytes, 1024).len(), 25);
}

#[test]
fn memory_edge_cases() {
    assert_eq!(find_shortest_path(&vec![], 1), Some(0));
    assert_eq!(find_shortest_path(&vec![(0, 0)], 1), Some(0));
    assert_eq!(find_shortest_path(&vec![], 0), None);
    assert_eq!(find_shortest_path(&vec![], 3), Some(4));
    assert_eq!(find_shortest_path(&vec![(2, 2)], 3), None);
    assert_eq!(find_shortest_path(&vec![(0, 0), (9, 9)], 3), Some(4));
    assert_eq!(find_shortest_path(&vec![(1, 0), (0, 1)], 3), None);
    assert!(!path_exists(&vec![(1, 0), (0, 1)], 3));
    assert_eq!(find_first_blocking_byte(&vec![(1, 1)], 3), None);
    assert_eq!(find_first_blocking_byte(&vec![(1, 0), (1, 1), (1, 2), (0, 0)], 3), Some((1, 2)));
    assert_eq!(heuristic((1, 5), (4, 1)), 7);
    assert_eq!(heuristic((4, 1), (1, 5)), 7);
    assert_eq!(parse_bytes("1,2,3\n4,5"), Some(vec![(1, 2), (4, 5)]));
    assert_eq!(parse_bytes("1"), None);
    assert_eq!(parse_bytes("1,x"), None);
    assert_eq!(parse_bytes("1,2,x"), None);
    assert_eq!(parse_bytes(""), Some(vec![]));
}
