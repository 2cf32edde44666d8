use gridpath::garden::{calculate_price, Point};
use gridpath::keypad::{
    all_shortest_paths, direction_keypad, direction_paths, find_button, find_shortest_paths,
    find_shortest_sequence, lookup, numeric_keypad, numeric_paths, ways_of, Keypad, MOST_BUTTONS,
};
use gridpath::maze::heading::Direction as Heading;
use gridpath::maze::route::Pose;
use gridpath::patrol::{check_cycle_in_map, find_guard, solve as solve_patrol, travel_map};
use gridpath::warehouse::{
    add, can_move_rec, first_part, forward, forward2, get_cell, get_first_input, get_second_input,
    move_box_left, move_box_right, move_rec, parse_input, second_part, sum_coordinates, Cell,
    Direction, Vector,
};

const SMALL: &str = "########\n#..O.O.#\n##@.O..#\n#...O..#\n#.#.O..#\n#...O..#\n#......#\n########\n\n<^^>>>vv<v>>v<<\n";

const LARGE: &str = "##########\n#..O..O.O#\n#......O.#\n#.OO..O.O#\n#..O@..O.#\n#O#..O...#\n#O..O..O.#\n#.OO.O.OO#\n#....O...#\n##########\n\n<vv>^<v^>v>^vv^v>v<>v^v<v<^vv<<<^><<><>>v<vvv<>^v^>^<<<><<v<<<v^vv^v>^\nvvv<<^>^v^^><<>>><>^<<><^vv^^<>vvv<>><^^v>^>vv<>v<<<<v<^v>^<^^>>>^<v<v\n><>vv>v^v^<>><>>>><^^>vv>v<^^^>>v^v^<^^>v^^>v^<^v>v<>>v^v^<v>v^^<^^vv<\n<<v<^>>^^^^>>>v^<>vvv^><v<<<>^^^vv^<vvv>^>v<^^^^v<>^>vvvv><>>v^<<^^^^^\n^><^><>>><>^^<<^^v>>><^<v>^<vv>>v>>>^v><>^v><<<<v>>v<v<v>vvv>^<><<>^><\n^>><>^v<><^vvv<^^<><v<<<<<><^v<<<><<<^^<v<^^^><^>>^<v^><<<^>>^v<v^v<v^\n>^>>^v>vv>^<<^v<>><<><<v<<v><>v<^vv<<<>^^v^>^^>>><<^v>>v^v><^^>>^<>vv^\n<><^^>^^^<><vvvvv^v<v<<>^v<v>v<<^><<><<><<<^^<<<^<<>><<><^^^>^^<>^>v<>\n^^>vv<^v^v<vv>^<><v<^v>^^^>>>^^vvv^>vvv<>>>^<^>>>>>^<<^v>^vvv<>^<><<v>\nv^^>>><<^^<>>^v^<v^vv<>v^<<>^<^v^v><^<<<><<^<v><v<>vv>>v><v^<vv<>v^<<^\n";

const LAB: &str = "....#.....\n.........#\n..........\n..#.......\n.......#..\n..........\n.#..^.....\n........#.\n#.........\n......#...\n";

fn grid(s: &str) -> Vec<Vec<char>> {
    s.lines().map(|l| l.chars().collect()).collect()
}

fn cs(s: &str) -> Vec<char> {
    s.chars().collect()
}

fn strs(v: &Vec<Vec<char>>) -> Vec<String> {
    v.iter().map(|l| l.iter().collect()).collect()
}

#[test]
fn warehouse_samples() {
    assert_eq!(first_part(get_first_input(SMALL).unwrap()), Some(2028));
    assert_eq!(first_part(get_first_input(LARGE).unwrap()), Some(10092));
    assert_eq!(second_part(get_second_input(LARGE).unwrap()), Some(9021));
    let p = get_first_input(SMALL).unwrap();
    assert_eq!(p.robot, Vector { x: 2, y: 2 });
    assert_eq!(p.map.len(), 8);
    assert_eq!(p.map[1], vec![
        Cell::Wall,
        Cell::Empty,
        Cell::Empty,
        Cell::Box,
        Cell::Empty,
        Cell::Box,
        Cell::Empty,
        Cell::Wall
    ]);
    assert_eq!(p.moves.len(), 15);
    assert_eq!(p.moves[0], Direction { x: -1, y: 0 });
    assert_eq!(p.moves[1], Direction { x: 0, y: -1 });
    let q = get_second_input(SMALL).unwrap();
    assert_eq!(q.robot, Vector { x: 4, y: 2 });
    assert_eq!(q.map[1].len(), 16);
    assert_eq!(q.map[1][6], Cell::BoxLeft);
    assert_eq!(q.map[1][7], Cell::BoxRight);
    assert_eq!(q.map[2][4], Cell::Empty);
}

#[test]
fn warehouse_text_is_checked() {
    assert!(parse_input("", false).is_none());
    assert!(parse_input("#x\n##\n", false).is_none());
    assert!(parse_input("##\n##\n\n<x\n", false).is_none());
    assert!(parse_input("##\n###\n", false).is_none());
    assert!(parse_input("##\n##\n##\n", false).is_none());
    let tiny = parse_input("@.\n..\n\n>v\n<^", false).unwrap();
    assert_eq!(tiny.moves.len(), 4);
    assert_eq!(tiny.robot, Vector { x: 0, y: 0 });
    // rows that the text does not give are empty
    let short = parse_input("#O#\n", true).unwrap();
    assert_eq!(short.map.len(), 3);
    assert_eq!(short.map[0], vec![
        Cell::Wall,
        Cell::Wall,
        Cell::BoxLeft,
        Cell::BoxRight,
        Cell::Wall,
        Cell::Wall
    ]);
    assert_eq!(short.map[2], vec![Cell::Empty; 6]);
    assert_eq!(short.robot, Vector { x: 0, y: 0 });
}

#[test]
fn warehouse_single_boxes() {
    let mut map = vec![vec![Cell::Empty, Cell::Box, Cell::Box, Cell::Empty, Cell::Wall]];
    let right = Direction { x: 1, y: 0 };
    let left = Direction { x: -1, y: 0 };
    let pos = forward(&mut map, &Vector { x: 0, y: 0 }, &right);
    assert_eq!(pos, Vector { x: 1, y: 0 });
    assert_eq!(map[0], vec![Cell::Empty, Cell::Empty, Cell::Box, Cell::Box, Cell::Wall]);
    let pos = forward(&mut map, &pos, &right);
    assert_eq!(pos, Vector { x: 1, y: 0 });
    let pos = forward(&mut map, &pos, &left);
    assert_eq!(pos, Vector { x: 0, y: 0 });
    // the border of the map is a wall
    let pos = forward(&mut map, &pos, &left);
    assert_eq!(pos, Vector { x: 0, y: 0 });
    let pos = forward(&mut map, &pos, &Direction { x: 0, y: 1 });
    assert_eq!(pos, Vector { x: 0, y: 0 });
    assert_eq!(get_cell(&map, &Vector { x: 2, y: 0 }), Cell::Box);
    assert_eq!(get_cell(&map, &Vector { x: 9, y: 9 }), Cell::Wall);
    assert_eq!(add(&Vector { x: 3, y: 4 }, &left), Vector { x: 2, y: 4 });
    assert_eq!(sum_coordinates(&map, Cell::Box), Some(5));
    assert_eq!(sum_coordinates(&map, Cell::BoxLeft), Some(0));
}

#[test]
fn warehouse_wide_boxes() {
    let e = Cell::Empty;
    let l = Cell::BoxLeft;
    let r = Cell::BoxRight;
    let w = Cell::Wall;
    let up = Direction { x: 0, y: -1 };
    // two boxes on top of one, a wall over the right one
    let mut map = vec![
        vec![e, e, e, e, w, e],
        vec![e, l, r, l, r, e],
        vec![e, e, l, r, e, e],
        vec![e, e, e, e, e, e],
    ];
    assert!(!can_move_rec(&map, &Vector { x: 2, y: 2 }, &up));
    assert_eq!(forward2(&mut map, &Vector { x: 2, y: 3 }, &up), Vector { x: 2, y: 3 });
    map[0][4] = e;
    assert!(can_move_rec(&map, &Vector { x: 2, y: 2 }, &up));
    assert!(can_move_rec(&map, &Vector { x: 3, y: 2 }, &up));
    assert_eq!(forward2(&mut map, &Vector { x: 2, y: 3 }, &up), Vector { x: 2, y: 2 });
    assert_eq!(
        map,
        vec![
            vec![e, l, r, l, r, e],
            vec![e, e, l, r, e, e],
            vec![e, e, e, e, e, e],
            vec![e, e, e, e, e, e],
        ]
    );
    // at the border nothing moves
    assert_eq!(forward2(&mut map, &Vector { x: 2, y: 2 }, &up), Vector { x: 2, y: 2 });
    // sideways
    let right = Direction { x: 1, y: 0 };
    let left = Direction { x: -1, y: 0 };
    let mut row = vec![vec![e, l, r, l, r, e, w]];
    assert_eq!(forward2(&mut row, &Vector { x: 0, y: 0 }, &right), Vector { x: 1, y: 0 });
    assert_eq!(row[0], vec![e, e, l, r, l, r, w]);
    assert_eq!(forward2(&mut row, &Vector { x: 1, y: 0 }, &right), Vector { x: 1, y: 0 });
    let mut row = vec![vec![e, l, r, l, r, e, w]];
    assert_eq!(forward2(&mut row, &Vector { x: 5, y: 0 }, &left), Vector { x: 4, y: 0 });
    assert_eq!(row[0], vec![l, r, l, r, e, e, w]);
    move_rec(&mut row, &Vector { x: 3, y: 0 }, &right);
    assert_eq!(row[0], vec![l, r, e, l, r, e, w]);
    move_box_left(&mut row, &Vector { x: 3, y: 0 });
    assert_eq!(row[0], vec![l, r, l, r, e, e, w]);
    move_box_right(&mut row, &Vector { x: 3, y: 0 });
    assert_eq!(row[0], vec![l, r, e, l, r, e, w]);
}

#[test]
fn garden_prices() {
    assert_eq!(calculate_price(&grid("AAAA\nBBCD\nBBCC\nEEEC")), Some(140));
    assert_eq!(calculate_price(&grid("OOOOO\nOXOXO\nOOOOO\nOXOXO\nOOOOO")), Some(772));
    assert_eq!(
        calculate_price(&grid("RRRRIICCFF\nRRRRIICCCF\nVVRRRCCFFF\nVVRCCCJFFF\nVVVVCJJCFE\nVVIVCCJJEE\nVVIIICJJEE\nMIIIIIJJEE\nMIIISIJEEE\nMMMISSJEEE")),
        Some(1930)
    );
    assert_eq!(calculate_price(&grid("A")), Some(4));
    assert_eq!(calculate_price(&vec![]), Some(0));
    assert_eq!(calculate_price(&grid("AB\nA")), None);
    assert_eq!(calculate_price(&vec![vec![], vec![]]), Some(0));
}

#[test]
fn garden_points() {
    let g = grid("AAB\nABB\nAAA");
    let p = Point::new(1, 1);
    assert_eq!(p.get(&g), Some('B'));
    assert_eq!(Point::new(3, 0).get(&g), None);
    assert_eq!(Point::new(-1, 0).get(&g), None);
    assert_eq!(p.add(Point::new(0, 1)), Point { x: 1, y: 2 });
    assert!(p.in_bounds(&g));
    assert!(!Point::new(0, 3).in_bounds(&g));
    assert!(!Point::new(0, 0).in_bounds(&vec![]));
    assert_eq!(p.neighbours(&g), vec![
        Point::new(0, 1),
        Point::new(2, 1),
        Point::new(1, 0),
        Point::new(1, 2)
    ]);
    assert_eq!(Point::new(0, 0).neighbours(&g), vec![Point::new(1, 0), Point::new(0, 1)]);
    assert_eq!(Point::new(2, 2).neighbours(&g), vec![Point::new(1, 2), Point::new(2, 1)]);
    assert_eq!(Point::new(0, 0).neighbours(&vec![]), vec![]);
    assert_eq!(p.perimeter_at_point(&g), 3);
    assert_eq!(Point::new(0, 0).perimeter_at_point(&g), 2);
    assert_eq!(Point::new(1, 2).perimeter_at_point(&g), 2);
    let d = Point::new(0, 1);
    assert_eq!(d.rotate_right(0), Some(Point::new(0, 1)));
    assert_eq!(d.rotate_right(1), Some(Point::new(1, 0)));
    assert_eq!(d.rotate_right(2), Some(Point::new(0, -1)));
    assert_eq!(d.rotate_right(3), Some(Point::new(-1, 0)));
    assert_eq!(d.rotate_right(4), None);
    assert_eq!(Point::new(i32::MIN, 0).rotate_right(2), None);
    // the first plot of a row of three has all four sides; its neighbour,
    // visited after it, adds none above or below
    let row = grid("AAA");
    let first = Point::new(0, 0);
    let second = Point::new(0, 1);
    assert_eq!(first.sides(&row, &vec![first]), 3);
    assert_eq!(second.sides(&row, &vec![first, second]), 0);
    assert_eq!(second.sides(&row, &vec![second]), 2);
    assert!(first.side_in_dir(&row, &vec![], Point::new(-1, 0)));
    assert!(!first.side_in_dir(&row, &vec![], Point::new(0, 1)));
    assert!(!second.side_in_dir(&row, &vec![first], Point::new(-1, 0)));
    assert!(second.side_in_dir(&grid("AAA\nA.."), &vec![first], Point::new(1, 0)));
}

#[test]
fn patrol_sample() {
    assert_eq!(solve_patrol(LAB), Some(6));
    let map = grid(LAB);
    let start = find_guard(&map).unwrap();
    assert_eq!(start, Pose { x: 4, y: 6, dir: Heading::North });
    let visited = travel_map(&map, start).unwrap();
    let count: usize = visited.iter().map(|r| r.iter().filter(|b| **b).count()).sum();
    assert_eq!(count, 41);
    assert_eq!(check_cycle_in_map(&map, start), Some(false));
    let mut blocked = map.clone();
    blocked[6][3] = '#';
    assert_eq!(check_cycle_in_map(&blocked, start), Some(true));
}

#[test]
fn patrol_edge_cases() {
    assert_eq!(solve_patrol(""), None);
    assert_eq!(solve_patrol("..\n.."), None);
    assert_eq!(solve_patrol(">"), Some(0));
    // a guard in a box of obstacles turns for ever
    let boxed = grid(".#.\n#^#\n.#.");
    let start = find_guard(&boxed).unwrap();
    assert_eq!(check_cycle_in_map(&boxed, start), Some(true));
    assert_eq!(travel_map(&boxed, start).unwrap(), vec![
        vec![false, false, false],
        vec![false, true, false],
        vec![false, false, false]
    ]);
    // the last guard in reading order is the one
    let two = grid(">.<\n.v.");
    assert_eq!(find_guard(&two).unwrap(), Pose { x: 1, y: 1, dir: Heading::South });
    assert_eq!(find_guard(&grid("...")), None);
}

#[test]
fn keypad_sample() {
    let (_, nt) = numeric_paths().unwrap();
    let (_, dt) = direction_paths().unwrap();
    let cost = |code: &str, depth: usize| find_shortest_sequence(&cs(code), depth, true, &nt, &dt);
    assert_eq!(cost("029A", 2), Some(68));
    assert_eq!(cost("980A", 2), Some(60));
    assert_eq!(cost("179A", 2), Some(68));
    assert_eq!(cost("456A", 2), Some(64));
    assert_eq!(cost("379A", 2), Some(64));
    assert_eq!(cost("029A", 0), Some(12));
    assert_eq!(cost("029A", 1), Some(28));
    assert_eq!(cost("", 2), Some(0));
    assert_eq!(cost("x", 2), None);
    assert_eq!(find_shortest_sequence(&cs("<A"), 0, false, &nt, &dt), Some(8));
    assert_eq!(find_shortest_sequence(&cs("0"), 0, false, &nt, &dt), None);
    assert!(cost("029A", 25).unwrap() > 1_000_000_000);
    assert_eq!(cost("029A", 25), Some(82050061710));
}

#[test]
fn keypad_paths() {
    let pad = numeric_keypad();
    assert_eq!(strs(&find_shortest_paths(&pad, 'A', '0').unwrap()), vec!["<"]);
    assert_eq!(strs(&find_shortest_paths(&pad, 'A', 'A').unwrap()), vec![""]);
    assert_eq!(strs(&find_shortest_paths(&pad, '2', '9').unwrap()), vec![">^^", "^>^", "^^>"]);
    assert_eq!(strs(&find_shortest_paths(&pad, '7', '0').unwrap()), vec![
        "vv>v", "v>vv", ">vvv"
    ]);
    assert_eq!(find_shortest_paths(&pad, 'x', '0'), None);
    assert_eq!(strs(&find_shortest_paths(&pad, '0', 'x').unwrap()), Vec::<String>::new());
    assert_eq!(strs(&ways_of(&pad, 'A', '0', 3).unwrap()), vec!["^<v", "^v<"]);
    assert_eq!(find_button(&pad.buttons, 'A'), Some(10));
    assert_eq!(find_button(&pad.buttons, 'x'), None);
    let dirs = direction_keypad();
    assert_eq!(strs(&find_shortest_paths(&dirs, 'A', '<').unwrap()), vec!["<v<", "v<<"]);
    let table = all_shortest_paths(&dirs).unwrap();
    assert_eq!(table.keys.len(), 25);
    assert_eq!(table.keys[0], ('^', '^'));
    assert_eq!(table.keys[1], ('^', 'A'));
    assert_eq!(table.keys[5], ('A', '^'));
    assert_eq!(strs(lookup(&table, '^', 'A').unwrap()), vec![">"]);
    assert!(lookup(&table, '^', '7').is_none());
    let lonely = Keypad { buttons: vec!['a', 'b'], edges: vec![vec![('b', '>')], vec![]] };
    assert!(all_shortest_paths(&lonely).is_none());
    assert_eq!(strs(&find_shortest_paths(&lonely, 'a', 'b').unwrap()), vec![">"]);
}

#[test]
fn tables_of_the_two_keypads_are_always_there() {
    let (pad, table) = numeric_paths().unwrap();
    assert_eq!(pad.buttons.len(), 11);
    assert_eq!(table.keys.len(), 121);
    assert!(table.paths.iter().all(|ways| !ways.is_empty()));
    // from 7 to A: nine ways of five presses, none of them over the gap
    let at = table.keys.iter().position(|&k| k == ('7', 'A')).unwrap();
    assert_eq!(table.paths[at].len(), 9);
    assert!(table.paths[at].iter().all(|way| way.len() == 5));
    let (pad, table) = direction_paths().unwrap();
    assert_eq!(pad.buttons.len(), 5);
    assert_eq!(table.keys.len(), 25);
    assert!(table.paths.iter().all(|ways| !ways.is_empty()));
}

#[test]
fn keypads_with_too_many_buttons_have_no_table() {
    let buttons: Vec<char> = (0..=MOST_BUTTONS as u32).map(|i| char::from_u32(0x4e00 + i).unwrap()).collect();
    let edges = vec![Vec::new(); buttons.len()];
    assert_eq!(buttons.len(), MOST_BUTTONS + 1);
    assert!(all_shortest_paths(&Keypad { buttons, edges }).is_none());
    // a button alone is its own way
    let one = Keypad { buttons: vec!['x'], edges: vec![vec![]] };
    let table = all_shortest_paths(&one).unwrap();
    assert_eq!(table.keys, vec![('x', 'x')]);
    assert_eq!(table.paths, vec![vec![Vec::<char>::new()]]);
    // two buttons with a step one way only
    let stuck = Keypad { buttons: vec!['a', 'b'], edges: vec![vec![('b', '>')], vec![]] };
    assert!(all_shortest_paths(&stuck).is_none());
    assert!(all_shortest_paths(&Keypad { buttons: vec![], edges: vec![] }).is_some());
}
