//! From the text of a maze to its two answers.

use vstd::prelude::*;
use crate::maze::grid::{lemma_describes_unique, well_formed, Grid, GridError, Maze};
use crate::maze::route::{best_tiles, is_min_cost, no_route, CostModel};
use crate::maze::search::{traverse, SearchError};
use crate::maze::tiles::traverse_all;
use crate::text::{chars_of, lines_of, split_lines, views};

verus! {

/// Why a maze gave no answer.
#[derive(Clone, Copy, Debug, PartialEq, Eq, Structural)]
pub enum MazeError {
    /// Rows of unequal length, or no start or no end marker.
    MalformedInput,
    /// No route leads from the start to the end.
    Unreachable,
}

/// The model that a character matrix describes.
pub open spec fn maze_of(rows: Seq<Seq<char>>) -> Maze {
    choose|m: Maze| m.describes(rows)
}

/// `n` answers the question asked of the maze `m`: the least cost of a
/// route from the start to the end or, for the second part, the number of
/// tiles that lie on some route of that cost.
pub open spec fn answers(m: Maze, c: CostModel, part_two: bool, n: nat) -> bool {
    if part_two {
        exists|d: nat| #[trigger] is_min_cost(m, c, d) && n == best_tiles(m, c, d).len()
    } else {
        is_min_cost(m, c, n)
    }
}

/// Reads a maze from text: one row per line, `'#'` a wall, `'S'` the start,
/// `'E'` the end, every other character an open cell.
pub fn parse_grid(input: &str) -> (r: Result<Grid, GridError>)
    ensures
        match r {
            Ok(g) => well_formed(lines_of(input@)) && g@.valid() && g@ == maze_of(lines_of(input@)),
            Err(e) => e == GridError::MalformedInput && !well_formed(lines_of(input@)),
        },
{
    let text = chars_of(input);
    let rows = split_lines(&text);
    let r = Grid::from_rows(&rows);
    proof {
        if let Ok(g) = &r {
            lemma_describes_unique(g@, maze_of(lines_of(input@)), lines_of(input@));
        }
    }
    r
}

/// Solves a maze given as text, with a step costing 1 and a quarter turn
/// 1000: the least cost of a route from start to end or, for the second
/// part, the number of tiles on the routes of that cost.
pub fn solve(input: &str, part_two: bool) -> (r: Result<u128, MazeError>)
    ensures
        match r {
            Ok(n) => {
                &&& well_formed(lines_of(input@))
                &&& answers(
                    maze_of(lines_of(input@)),
                    CostModel { step: 1, turn: 1000 },
                    part_two,
                    n as nat,
                )
            },
            Err(MazeError::MalformedInput) => !well_formed(lines_of(input@)),
            Err(MazeError::Unreachable) => well_formed(lines_of(input@)) && no_route(
                maze_of(lines_of(input@)),
            ),
        },
{
    let grid = match parse_grid(input) {
        Ok(g) => g,
        Err(_) => {
            return Err(MazeError::MalformedInput);
        },
    };
    let costs = CostModel::standard();
    let cost = match traverse(&grid, costs) {
        Ok(d) => d,
        Err(_) => {
            return Err(MazeError::Unreachable);
        },
    };
    if part_two {
        let n = traverse_all(&grid, costs, cost);
        Ok(n as u128)
    } else {
        Ok(cost)
    }
}

} // verus!
