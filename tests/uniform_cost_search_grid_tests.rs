use tic_tac_toe::pathfinding::uniform_cost_search_grid;

fn generate_weighted_test_grid(
    size: (usize, usize),
    default_weight: usize,
    obstacles: Vec<(usize, usize)>,
) -> Vec<Vec<usize>> {
    let mut grid = vec![vec![default_weight; size.1]; size.0];
    for (row, col) in obstacles {
        if row < size.0 && col < size.1 {
            grid[row][col] = usize::MAX;
        }
    }
    grid
}

fn walk_cost(grid: &[Vec<usize>], path: &[(usize, usize)]) -> usize {
    let mut total = 0;
    for w in path.windows(2) {
        let (a, b) = (w[0], w[1]);
        assert_eq!(a.0.abs_diff(b.0) + a.1.abs_diff(b.1), 1);
        assert_ne!(grid[b.0][b.1], usize::MAX);
        total += grid[b.0][b.1];
    }
    total
}

#[test]
fn test_uniform_cost_search_grid_no_obstacles() {
    let grid = generate_weighted_test_grid((5, 5), 1, vec![]);
    let start = (0, 0);
    let goal = (4, 4);
    let path = uniform_cost_search_grid(&grid, start, goal);
    assert!(!path.is_empty());
    assert_eq!(path.first(), Some(&start));
    assert_eq!(path.last(), Some(&goal));
}

#[test]
fn test_uniform_cost_search_grid_with_cycles() {
    let grid = generate_weighted_test_grid(
        (5, 5),
        1,
        vec![(1, 1), (1, 2), (1, 3), (2, 1), (3, 1), (3, 2), (3, 3)],
    );
    let start = (0, 0);
    let goal = (4, 4);
    let path = uniform_cost_search_grid(&grid, start, goal);
    assert!(!path.is_empty());
    assert_eq!(path.first(), Some(&start));
    assert_eq!(path.last(), Some(&goal));
}

#[test]
fn test_uniform_cost_search_grid_no_solution() {
    let grid =
        generate_weighted_test_grid((5, 5), 1, vec![(0, 2), (1, 2), (2, 2), (3, 2), (4, 2)]);
    let start = (0, 0);
    let goal = (4, 4);
    let path = uniform_cost_search_grid(&grid, start, goal);
    assert!(path.is_empty());
}

#[test]
fn test_uniform_cost_search_grid_target_edge_case() {
    let grid = generate_weighted_test_grid((5, 5), 1, vec![]);
    let start = (2, 2);
    let goal = (0, 4);
    let path = uniform_cost_search_grid(&grid, start, goal);
    assert!(!path.is_empty());
    assert_eq!(path.first(), Some(&start));
    assert_eq!(path.last(), Some(&goal));
}

#[test]
fn uniform_cost_search_takes_the_cheap_detour() {
    // The direct row costs 9 per cell; the detour below costs 1 per cell.
    let grid = vec![vec![1, 9, 9, 1], vec![1, 1, 1, 1]];
    let path = uniform_cost_search_grid(&grid, (0, 0), (0, 3));
    assert_eq!(path.first(), Some(&(0, 0)));
    assert_eq!(path.last(), Some(&(0, 3)));
    assert_eq!(walk_cost(&grid, &path), 5);
    assert_eq!(path, vec![(0, 0), (1, 0), (1, 1), (1, 2), (1, 3), (0, 3)]);
}

#[test]
fn uniform_cost_search_start_is_goal() {
    let grid = generate_weighted_test_grid((2, 2), 3, vec![]);
    assert_eq!(uniform_cost_search_grid(&grid, (1, 0), (1, 0)), vec![(1, 0)]);
}
