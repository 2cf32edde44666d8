use gridpath::maze::grid::{find_node, Cell, Grid, GridError};
use gridpath::maze::heading::Direction;
use gridpath::maze::route::CostModel;
use gridpath::maze::search::{traverse, SearchError};
use gridpath::maze::solve::{parse_grid, solve, MazeError};
use gridpath::maze::tiles::{optimal_tiles, traverse_all};

const SAMPLE: &str = "###############\n#.......#....E#\n#.#.###.#.###.#\n#.....#.#...#.#\n#.###.#####.#.#\n#.#.#.......#.#\n#.#.#####.###.#\n#...........#.#\n###.#.#####.#.#\n#...#.....#.#.#\n#.#.#.###.#.#.#\n#.....#...#.#.#\n#.###.#.#.#.#.#\n#S..#.....#...#\n###############";

const TWO_WAYS: &str = "#######\n##...##\n#S.#.E#\n##...##\n#######";

fn rows(text: &str) -> Vec<Vec<char>> {
    text.lines().map(|l| l.chars().collect()).collect()
}

#[test]
fn sample_maze_costs_7036() {
    assert_eq!(solve(SAMPLE, false), Ok(7036));
}

#[test]
fn sample_maze_has_45_tiles_on_best_routes() {
    assert_eq!(solve(SAMPLE, true), Ok(45));
}

#[test]
fn solving_twice_gives_the_same_answers() {
    assert_eq!(solve(SAMPLE, false), solve(SAMPLE, false));
    assert_eq!(solve(SAMPLE, true), solve(SAMPLE, true));
    assert_eq!(solve(TWO_WAYS, true), solve(TWO_WAYS, true));
}

#[test]
fn two_equal_routes_give_the_union_of_their_tiles() {
    let grid = parse_grid(TWO_WAYS).unwrap();
    let costs = CostModel::standard();
    let cost = traverse(&grid, costs).unwrap();
    assert_eq!(cost, 4006);
    let mut tiles = optimal_tiles(&grid, costs, cost);
    tiles.sort();
    let mut expected = vec![
        (1, 2),
        (2, 2),
        (2, 1),
        (3, 1),
        (4, 1),
        (4, 2),
        (5, 2),
        (2, 3),
        (3, 3),
        (4, 3),
    ];
    expected.sort();
    assert_eq!(tiles, expected);
    assert_eq!(traverse_all(&grid, costs, cost), 10);
    assert!(traverse_all(&grid, costs, cost) > 7);
}

#[test]
fn start_on_end_costs_nothing_and_has_one_tile() {
    let grid = parse_grid("...\n.SE\n...").unwrap().with_ends((1, 1), (1, 1)).unwrap();
    assert_eq!(grid.start(), grid.end());
    let costs = CostModel::standard();
    assert_eq!(traverse(&grid, costs), Ok(0));
    assert_eq!(optimal_tiles(&grid, costs, 0), vec![(1, 1)]);
    assert_eq!(traverse_all(&grid, costs, 0), 1);
    assert_eq!(traverse_all(&grid, CostModel { step: 0, turn: 1 }, 0), 1);
    assert_eq!(traverse_all(&grid, CostModel { step: 1, turn: 0 }, 0), 1);
    // where nothing costs anything, every open tile lies on a route that costs nothing
    assert_eq!(traverse_all(&grid, CostModel { step: 0, turn: 0 }, 0), 9);
}

#[test]
fn ends_can_be_moved_to_open_cells_only() {
    let grid = parse_grid("#S.\n..E").unwrap();
    let moved = grid.with_ends((0, 1), (2, 0)).unwrap();
    assert_eq!(moved.start(), (0, 1));
    assert_eq!(moved.end(), (2, 0));
    assert_eq!(traverse(&moved, CostModel::standard()), Ok(1003));
    assert_eq!(grid.with_ends((0, 0), (2, 0)).err(), Some(GridError::MalformedInput));
    assert_eq!(grid.with_ends((2, 0), (0, 0)).err(), Some(GridError::MalformedInput));
    assert_eq!(grid.with_ends((3, 0), (2, 0)).err(), Some(GridError::OutOfBounds));
    assert_eq!(grid.with_ends((0, 1), (0, 2)).err(), Some(GridError::OutOfBounds));
    // the grid itself is untouched and can be searched again
    assert_eq!(traverse(&grid, CostModel::standard()), Ok(1002));
}

#[test]
fn straight_corridor_east_costs_its_length() {
    assert_eq!(solve("#######\n#S...E#\n#######", false), Ok(4));
    assert_eq!(solve("#######\n#S...E#\n#######", true), Ok(5));
}

#[test]
fn straight_corridor_north_costs_one_turn_more() {
    assert_eq!(solve("###\n#E#\n#.#\n#.#\n#S#\n###", false), Ok(1003));
}

#[test]
fn straight_corridor_south_costs_one_turn_more() {
    assert_eq!(solve("###\n#S#\n#.#\n#E#\n###", false), Ok(1002));
}

#[test]
fn straight_corridor_west_costs_two_turns_more() {
    assert_eq!(solve("#####\n#E.S#\n#####", false), Ok(2002));
    assert_eq!(solve("#####\n#E.S#\n#####", true), Ok(3));
}

#[test]
fn custom_costs_are_used() {
    let grid = parse_grid("#####\n#E.S#\n#####").unwrap();
    assert_eq!(traverse(&grid, CostModel { step: 7, turn: 11 }), Ok(36));
    assert_eq!(traverse(&grid, CostModel { step: 1, turn: 0 }), Ok(2));
}

#[test]
fn grid_without_border_is_guarded() {
    assert_eq!(solve("S.E", false), Ok(2));
    assert_eq!(solve("E\n.\nS", false), Ok(1002));
}

#[test]
fn walled_in_end_is_unreachable() {
    assert_eq!(solve("S#E", false), Err(MazeError::Unreachable));
    assert_eq!(solve("S#E", true), Err(MazeError::Unreachable));
    let grid = parse_grid("S#E").unwrap();
    assert_eq!(traverse(&grid, CostModel::standard()), Err(SearchError::Unreachable));
}

#[test]
fn missing_markers_and_ragged_rows_are_malformed() {
    assert_eq!(solve("...\n.E.", false), Err(MazeError::MalformedInput));
    assert_eq!(solve("S..\n...", false), Err(MazeError::MalformedInput));
    assert_eq!(solve("S..\n.E", false), Err(MazeError::MalformedInput));
    assert_eq!(solve("", true), Err(MazeError::MalformedInput));
    assert_eq!(parse_grid("S.\n.E.").err(), Some(GridError::MalformedInput));
}

#[test]
fn cells_are_looked_up_by_coordinate() {
    let grid = parse_grid("#S.\n..E").unwrap();
    assert_eq!(grid.width(), 3);
    assert_eq!(grid.height(), 2);
    assert_eq!(grid.start(), (1, 0));
    assert_eq!(grid.end(), (2, 1));
    assert_eq!(grid.area(), 6);
    assert_eq!(grid.cell(0, 0), Ok(Cell::Wall));
    assert_eq!(grid.cell(1, 0), Ok(Cell::Open));
    assert_eq!(grid.cell(2, 1), Ok(Cell::Open));
    assert_eq!(grid.cell(3, 0), Err(GridError::OutOfBounds));
    assert_eq!(grid.cell(0, 2), Err(GridError::OutOfBounds));
    assert_eq!(grid.cell(-1, 0), Err(GridError::OutOfBounds));
    assert_eq!(grid.cell(0, -1), Err(GridError::OutOfBounds));
    assert!(grid.is_open(1, 1));
    assert!(!grid.is_open(0, 0));
    assert!(!grid.is_open(9, 9));
}

#[test]
fn first_marker_in_reading_order_wins() {
    let m = rows("..E\nS.S\nE..");
    assert_eq!(find_node(&m, 'S'), Some((0, 1)));
    assert_eq!(find_node(&m, 'E'), Some((2, 0)));
    assert_eq!(find_node(&m, 'x'), None);
    let grid = Grid::from_rows(&m).unwrap();
    assert_eq!(grid.start(), (0, 1));
    assert_eq!(grid.end(), (2, 0));
}

#[test]
fn windows_line_endings_are_line_endings() {
    assert_eq!(solve("S.E\r\n...\r\n", false), Ok(2));
}

#[test]
fn turns_go_round_the_compass() {
    assert_eq!(Direction::North.turn_right(), Direction::East);
    assert_eq!(Direction::East.turn_right(), Direction::South);
    assert_eq!(Direction::South.turn_right(), Direction::West);
    assert_eq!(Direction::West.turn_right(), Direction::North);
    assert_eq!(Direction::North.turn_left(), Direction::West);
    assert_eq!(Direction::West.turn_left(), Direction::South);
    assert_eq!(Direction::South.turn_left(), Direction::East);
    assert_eq!(Direction::East.turn_left(), Direction::North);
    for d in Direction::all() {
        assert_eq!(d.turn_left().turn_right(), d);
        assert_eq!(d.turn_right().turn_right().turn_right().turn_right(), d);
    }
}

#[test]
fn no_tile_lies_on_a_route_cheaper_than_the_least_cost() {
    let grid = parse_grid(TWO_WAYS).unwrap();
    assert!(optimal_tiles(&grid, CostModel::standard(), 4005).is_empty());
    assert_eq!(optimal_tiles(&grid, CostModel::standard(), 4006).len(), 10);
    // beyond the least cost the tiles are those of the cheapest routes still
    assert_eq!(optimal_tiles(&grid, CostModel::standard(), 9000).len(), 10);
}
