use gridpath::garden::Point;
use gridpath::regions::{
    check_tidy, enqueue_neighbours, explore, is_seen, survey, total_cost, visit, Region,
};

fn grid(s: &str) -> Vec<Vec<char>> {
    s.lines().map(|l| l.chars().collect()).collect()
}

fn at(x: i32, y: i32) -> Point {
    Point { x, y }
}

#[test]
fn one_plot_has_four_sides() {
    let s = survey(&grid("A")).unwrap();
    assert_eq!(s.visited, vec![at(0, 0)]);
    assert_eq!(s.regions, vec![Region { letter: 'A', perimeter: 4, sides: 4, area: 1 }]);
    assert_eq!(total_cost(&s.regions, false), Some(4));
    assert_eq!(total_cost(&s.regions, true), Some(4));
}

#[test]
fn two_plots_side_by_side() {
    let s = survey(&grid("AA")).unwrap();
    assert_eq!(s.visited, vec![at(0, 0), at(0, 1)]);
    assert_eq!(s.regions, vec![Region { letter: 'A', perimeter: 6, sides: 4, area: 2 }]);
    let s = survey(&grid("A\nA")).unwrap();
    assert_eq!(s.visited, vec![at(0, 0), at(1, 0)]);
    assert_eq!(s.regions, vec![Region { letter: 'A', perimeter: 6, sides: 4, area: 2 }]);
    let s = survey(&grid("AB")).unwrap();
    assert_eq!(
        s.regions,
        vec![
            Region { letter: 'A', perimeter: 4, sides: 4, area: 1 },
            Region { letter: 'B', perimeter: 4, sides: 4, area: 1 },
        ]
    );
}

#[test]
fn plots_are_visited_in_the_order_they_are_found() {
    let s = survey(&grid("AAA\nABA\nAAA")).unwrap();
    // from each plot the ones above, below, left and right of it wait in that order
    assert_eq!(
        s.visited,
        vec![
            at(0, 0),
            at(1, 0),
            at(0, 1),
            at(2, 0),
            at(0, 2),
            at(2, 1),
            at(1, 2),
            at(2, 2),
            at(1, 1),
        ]
    );
    assert_eq!(s.regions.len(), 2);
    assert_eq!(s.regions[0].letter, 'A');
    assert_eq!(s.regions[0].area, 8);
    assert_eq!(s.regions[0].perimeter, 16);
    assert_eq!(s.regions[1], Region { letter: 'B', perimeter: 4, sides: 4, area: 1 });
}

#[test]
fn small_garden_costs_140_by_fences() {
    let s = survey(&grid("AAAA\nBBCD\nBBCC\nEEEC")).unwrap();
    let letters: Vec<char> = s.regions.iter().map(|r| r.letter).collect();
    assert_eq!(letters, vec!['A', 'B', 'C', 'D', 'E']);
    let areas: Vec<usize> = s.regions.iter().map(|r| r.area).collect();
    assert_eq!(areas, vec![4, 4, 4, 1, 3]);
    let fences: Vec<u128> = s.regions.iter().map(|r| r.perimeter).collect();
    assert_eq!(fences, vec![10, 8, 10, 4, 8]);
    assert_eq!(total_cost(&s.regions, false), Some(140));
    assert_eq!(s.visited.len(), 16);
    let sides: Vec<u128> = s.regions.iter().map(|r| r.sides).collect();
    assert_eq!(sides, vec![4, 4, 8, 4, 4]);
    assert_eq!(total_cost(&s.regions, true), Some(80));
}

#[test]
fn larger_garden_costs_1930_by_fences() {
    let text = "RRRRIICCFF\nRRRRIICCCF\nVVRRRCCFFF\nVVRCCCJFFF\nVVVVCJJCFE\nVVIVCCJJEE\nVVIIICJJEE\nMIIIIIJJEE\nMIIISIJEEE\nMMMISSJEEE";
    let s = survey(&grid(text)).unwrap();
    assert_eq!(s.regions.len(), 11);
    assert_eq!(s.visited.len(), 100);
    assert_eq!(total_cost(&s.regions, false), Some(1930));
    assert_eq!(gridpath::garden::calculate_price(&grid(text)), Some(1930));
}

#[test]
fn odd_counts_of_sides_are_rounded_down() {
    let regions = vec![
        Region { letter: 'x', perimeter: 10, sides: 7, area: 3 },
        Region { letter: 'y', perimeter: 4, sides: 4, area: 2 },
    ];
    assert_eq!(total_cost(&regions, true), Some(3 * 6 + 2 * 4));
    assert_eq!(total_cost(&regions, false), Some(3 * 10 + 2 * 4));
    assert_eq!(total_cost(&vec![], true), Some(0));
    let huge = vec![Region { letter: 'x', perimeter: u128::MAX, sides: u128::MAX, area: 2 }];
    assert_eq!(total_cost(&huge, false), None);
    assert_eq!(total_cost(&huge, true), None);
}

#[test]
fn only_tidy_grids_are_surveyed() {
    assert!(check_tidy(&grid("AB\nCD")));
    assert!(check_tidy(&grid("")));
    assert!(!check_tidy(&grid("AB\nC")));
    assert!(!check_tidy(&grid("A\nBC")));
    assert!(survey(&grid("AB\nC")).is_none());
    let s = survey(&grid("")).unwrap();
    assert!(s.regions.is_empty() && s.visited.is_empty());
    let s = survey(&vec![vec![], vec![]]).unwrap();
    assert!(s.regions.is_empty() && s.visited.is_empty());
}

#[test]
fn a_region_is_explored_from_its_first_plot() {
    let g = grid("ABA\nAAA");
    let mut seen = vec![vec![false; 3]; 2];
    let mut visited = Vec::new();
    assert!(!is_seen(&seen, at(1, 1)));
    visit(&g, &mut seen, &mut visited, at(0, 1));
    assert!(is_seen(&seen, at(0, 1)));
    assert_eq!(visited, vec![at(0, 1)]);
    let mut queue = vec![at(5, 5)];
    enqueue_neighbours(&g, &seen, &mut queue, at(1, 1));
    assert_eq!(queue, vec![at(5, 5), at(1, 0), at(1, 2)]);
    let r = explore(&g, &mut seen, &mut visited, at(0, 0));
    assert_eq!(r.letter, 'A');
    assert_eq!(r.area, 5);
    assert_eq!(r.perimeter, 12);
    assert_eq!(visited, vec![at(0, 1), at(0, 0), at(1, 0), at(1, 1), at(1, 2), at(0, 2)]);
}
