use terrain_generator::coasts::{get_coast_cells, get_coast_lines};
use terrain_generator::erosion::{fill_sinks, get_flux, NO_OUTLET};
use terrain_generator::history::get_id;
use terrain_generator::rivers::get_rivers;
use terrain_generator::sort::{order_by_key, sort_by_key};

fn chain(n: usize) -> Vec<Vec<usize>> {
    (0..n)
        .map(|i| {
            let mut row = Vec::new();
            if i > 0 {
                row.push(i - 1);
            }
            if i + 1 < n {
                row.push(i + 1);
            }
            row
        })
        .collect()
}

#[test]
fn fill_raises_a_pit_to_its_outlet() {
    let filled = fill_sinks(&vec![0, 500_000, 300_000, 800_000], &chain(4), 100_000);
    assert_eq!(filled, vec![0, 500_000, 500_010, 800_000]);
}

#[test]
fn fill_never_lowers_and_keeps_the_sea() {
    let heights = vec![-200, 50, 40, 70, 10];
    let filled = fill_sinks(&heights, &chain(5), 0);
    assert_eq!(filled, vec![-200, 50, 60, 70, 80]);
    for i in 0..heights.len() {
        assert!(filled[i] >= heights[i] as i64);
    }
}

#[test]
fn fill_forces_a_slope_of_epsilon() {
    let filled = fill_sinks(&vec![0, 1, 1, 1], &chain(4), 0);
    assert_eq!(filled, vec![0, 10, 20, 30]);
}

#[test]
fn fill_is_idempotent_on_its_output() {
    let heights = vec![0, 500_000, 300_000, 800_000, 200_000, 900_000];
    let adj = chain(6);
    let once = fill_sinks(&heights, &adj, 100_000);
    let again: Vec<i32> = once.iter().map(|&v| v as i32).collect();
    let twice = fill_sinks(&again, &adj, 100_000);
    assert_eq!(once, twice);
}

#[test]
fn land_without_sea_has_no_outlet() {
    let filled = fill_sinks(&vec![5, 6, 7], &chain(3), 0);
    assert_eq!(filled, vec![NO_OUTLET, NO_OUTLET, NO_OUTLET]);
}

#[test]
fn flux_runs_down_a_chain() {
    assert_eq!(get_flux(&vec![4, 3, 2, 1], &chain(4)), vec![0, 1, 2, 3]);
}

#[test]
fn flux_picks_the_first_lowest_neighbour() {
    let adj = vec![vec![1, 2], vec![0], vec![0]];
    assert_eq!(get_flux(&vec![5, 1, 1], &adj), vec![0, 1, 0]);
}

#[test]
fn flux_of_a_flat_or_isolated_point_is_zero() {
    let adj = vec![vec![1], vec![0], vec![]];
    assert_eq!(get_flux(&vec![3, 3, 9], &adj), vec![0, 0, 0]);
}

#[test]
fn flux_is_deterministic() {
    let heights = vec![9, 4, 7, 1, 3, 8, 2];
    let adj = vec![
        vec![1, 2],
        vec![0, 3, 4],
        vec![0, 4, 5],
        vec![1, 6],
        vec![1, 2, 6],
        vec![2],
        vec![3, 4],
    ];
    let a = get_flux(&heights, &adj);
    let b = get_flux(&heights, &adj);
    assert_eq!(a, b);
    assert_eq!(a, vec![0, 1, 1, 6, 2, 0, 3]);
}

#[test]
fn river_runs_up_a_chain() {
    let cells = vec![vec![], vec![], vec![]];
    let rivers = get_rivers(&vec![1, 2, 3], &chain(3), 0, &cells, &vec![]);
    assert_eq!(rivers, vec![vec![(0, 2), (1, 1), (2, 0)]]);
}

#[test]
fn second_branch_becomes_a_tributary() {
    let adj = vec![vec![1, 2], vec![0], vec![0]];
    let cells = vec![vec![], vec![], vec![]];
    let rivers = get_rivers(&vec![1, 2, 3], &adj, 0, &cells, &vec![]);
    assert_eq!(rivers, vec![vec![(0, 2), (2, 0)], vec![(0, 2), (1, 0)]]);
}

#[test]
fn isolated_land_point_gives_no_river() {
    let adj = vec![vec![]];
    let cells = vec![vec![0]];
    let rivers = get_rivers(&vec![5], &adj, 1, &cells, &vec![0]);
    assert!(rivers.is_empty());
}

#[test]
fn sea_point_without_two_land_cells_ends_the_river() {
    // Node 0 lies under the sea and borders one land cell only: nothing flows.
    let adj = vec![vec![1], vec![0]];
    let cells = vec![vec![0, 1], vec![0, 1]];
    let cell_heights = vec![5, -5];
    let rivers = get_rivers(&vec![-3, -1], &adj, 0, &cells, &cell_heights);
    assert!(rivers.is_empty());
}

#[test]
fn estuary_starts_a_river() {
    let adj = vec![vec![1], vec![0]];
    let cells = vec![vec![0, 1], vec![0, 1]];
    let cell_heights = vec![5, 5];
    let rivers = get_rivers(&vec![-3, 2], &adj, 0, &cells, &cell_heights);
    assert_eq!(rivers, vec![vec![(0, 1), (1, 0)]]);
}

#[test]
fn rivers_are_long_and_disjoint_past_their_heads() {
    let heights = vec![1, 2, 3, 4, 5, 6];
    let adj = vec![vec![1, 2], vec![0, 3], vec![0, 4], vec![1, 5], vec![2], vec![3]];
    let cells = vec![vec![]; 6];
    let rivers = get_rivers(&heights, &adj, 0, &cells, &vec![]);
    let mut seen = Vec::new();
    for river in &rivers {
        assert!(river.len() > 1);
        for &(node, _) in &river[1..] {
            assert!(!seen.contains(&node));
            assert_ne!(node, river[0].0);
            seen.push(node);
        }
    }
}

#[test]
fn coast_cells_border_the_sea() {
    let heights = vec![5, 5, -5, -5];
    let neighbors = vec![vec![3, 2, 1], vec![0, 2], vec![1, 0, 3], vec![2, 0]];
    assert_eq!(get_coast_cells(&heights, &neighbors, 0), vec![0, 1]);
}

#[test]
fn coast_lines_of_the_square() {
    let heights = vec![5, 5, -5, -5];
    let neighbors = vec![vec![3, 2, 1], vec![0, 2], vec![1, 0, 3], vec![2, 0]];
    let points = vec![vec![1, 0], vec![0], vec![0, 1], vec![1]];
    let cells = vec![vec![0, 1, 2], vec![0, 2, 3]];
    assert_eq!(
        get_coast_lines(&heights, &neighbors, &points, &cells, 0),
        vec![(1, 0), (0, 1), (0, 0)]
    );
}

#[test]
fn no_coast_all_land_or_all_sea() {
    let neighbors = vec![vec![3, 2, 1], vec![0, 2], vec![1, 0, 3], vec![2, 0]];
    let points = vec![vec![1, 0], vec![0], vec![0, 1], vec![1]];
    let cells = vec![vec![0, 1, 2], vec![0, 2, 3]];
    assert!(get_coast_lines(&vec![5, 5, 5, 5], &neighbors, &points, &cells, 0).is_empty());
    assert!(get_coast_lines(&vec![-5, -5, -5, -5], &neighbors, &points, &cells, 0).is_empty());
}

#[test]
fn ids_count_up_and_wrap() {
    let mut counter = 0usize;
    assert_eq!(get_id(&mut counter), 0);
    assert_eq!(get_id(&mut counter), 1);
    assert_eq!(counter, 2);
    let mut top = usize::MAX;
    assert_eq!(get_id(&mut top), usize::MAX);
    assert_eq!(top, 0);
}

#[test]
fn order_by_key_sorts_indices() {
    assert_eq!(order_by_key(&vec![30, -1, 7, 7, 0]), vec![1, 4, 2, 3, 0]);
}

#[test]
fn sort_by_key_keeps_items() {
    let mut items = vec![2, 0, 3, 1];
    sort_by_key(&mut items, &vec![40, 10, 30, 20]);
    assert_eq!(items, vec![1, 3, 2, 0]);
}

#[test]
fn empty_inputs_give_empty_outputs() {
    let none: Vec<Vec<usize>> = Vec::new();
    assert!(fill_sinks(&vec![], &none, 0).is_empty());
    assert!(get_flux(&vec![], &none).is_empty());
    assert!(get_rivers(&vec![], &none, 0, &none, &vec![]).is_empty());
    assert!(get_coast_cells(&vec![], &none, 0).is_empty());
    assert!(order_by_key(&vec![]).is_empty());
}

#[test]
fn fill_at_the_extremes_of_height() {
    let filled = fill_sinks(&vec![i32::MIN, i32::MAX], &chain(2), 0);
    assert_eq!(filled, vec![i32::MIN as i64, i32::MAX as i64]);
}

#[test]
fn order_at_the_extremes_of_key() {
    assert_eq!(order_by_key(&vec![i64::MAX, i64::MIN, 0]), vec![1, 2, 0]);
}

#[test]
fn river_never_steps_down() {
    // Node 2 is lower than node 1: the river stops at node 1.
    let cells = vec![vec![], vec![], vec![]];
    let heights = vec![1, 5, 3];
    let rivers = get_rivers(&heights, &chain(3), 0, &cells, &vec![]);
    assert_eq!(rivers, vec![vec![(0, 1), (1, 0)]]);
    for river in &rivers {
        for w in river.windows(2) {
            assert!(heights[w[0].0] <= heights[w[1].0]);
        }
    }
}
