//! The least cost of walking from the start to the end.

use vstd::prelude::*;
use crate::maze::frontier::Frontier;
use crate::maze::grid::Grid;
use crate::maze::route::{
    is_distance, is_finish, is_min_cost, is_route_to, reachable_at, route_cost, no_route,
    CostModel, Pose,
};

verus! {

/// Why a search gave no cost.
#[derive(Clone, Copy, Debug, PartialEq, Eq, Structural)]
pub enum SearchError {
    /// No route leads from the start to the end.
    Unreachable,
}

/// The least cost of any route that begins on the start cell facing east and
/// ends on the end cell, in any heading.
///
/// Poses are settled in order of cost; the first settled pose that stands on
/// the end cell gives the answer.
pub fn traverse(grid: &Grid, costs: CostModel) -> (r: Result<u128, SearchError>)
    ensures
        match r {
            Ok(d) => is_min_cost(grid@, costs, d as nat),
            Err(e) => e == SearchError::Unreachable && no_route(grid@),
        },
{
    let mut frontier = Frontier::new(grid, costs, None);
    let end = grid.end();
    loop
        invariant
            frontier.inv(grid@, costs),
            frontier.limit() is None,
            end == grid@.end,
            forall|s: Pose| #[trigger] frontier.settled(s) ==> !s.on(end),
        decreases 4 * grid@.width() * grid@.height() - frontier.count(),
    {
        let ghost before = frontier;
        match frontier.advance(grid, costs) {
            None => {
                proof {
                    assert forall|p: Seq<Pose>| !#[trigger] is_finish(grid@, p) by {
                        if is_finish(grid@, p) {
                            assert(is_route_to(grid@, p, p.last()));
                            frontier.lemma_drained(grid@, costs, p, p.last());
                        }
                    }
                }
                return Err(SearchError::Unreachable);
            },
            Some((d, s)) => {
                proof {
                    frontier.lemma_count(grid@, costs);
                }
                if s.x == end.0 && s.y == end.1 {
                    proof {
                        frontier.lemma_settled(grid@, costs, s);
                        let w = choose|w: Seq<Pose>| #[trigger]
                            is_route_to(grid@, w, s) && route_cost(costs, w) == d as nat;
                        assert(is_finish(grid@, w));
                        assert forall|p: Seq<Pose>| #[trigger] is_finish(grid@, p) implies d
                            <= route_cost(costs, p) by {
                            let t = p.last();
                            assert(is_route_to(grid@, p, t));
                            if frontier.settled(t) {
                                assert(t == s);
                            } else {
                                frontier.lemma_pending(grid@, costs, p, t);
                            }
                        }
                    }
                    return Ok(d);
                }
            },
        }
    }
}

} // verus!
