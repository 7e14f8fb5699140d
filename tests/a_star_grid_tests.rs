use tic_tac_toe::pathfinding::a_star_grid;

fn generate_test_grid(size: (usize, usize), obstacles: Vec<(usize, usize)>) -> Vec<Vec<bool>> {
    let mut grid = vec![vec![false; size.1]; size.0];
    for (row, col) in obstacles {
        grid[row][col] = true;
    }
    grid
}

fn assert_walk(grid: &[Vec<bool>], path: &[(usize, usize)]) {
    for w in path.windows(2) {
        let (a, b) = (w[0], w[1]);
        let d = a.0.abs_diff(b.0) + a.1.abs_diff(b.1);
        assert_eq!(d, 1, "steps must be to a neighbour");
        assert!(!grid[b.0][b.1], "the path must avoid obstacles");
    }
}

#[test]
fn test_astar_no_obstacles() {
    let grid = generate_test_grid((5, 5), vec![]);
    let start = (0, 0);
    let goal = (4, 4);
    let path = a_star_grid(&grid, start, goal);
    assert!(!path.is_empty(), "A* should find a path.");
    assert_eq!(path.first(), Some(&start), "Path should start at the start position.");
    assert_eq!(path.last(), Some(&goal), "Path should end at the goal position.");
}

#[test]
fn test_a_star_with_cycles() {
    let mut grid = generate_test_grid((5, 5), vec![]);
    grid[1][1] = true;
    grid[1][2] = true;
    grid[1][3] = true;
    grid[2][1] = true;
    grid[3][1] = true;
    grid[3][2] = true;
    grid[3][3] = true;
    let start = (0, 0);
    let goal = (4, 4);
    let path = a_star_grid(&grid, start, goal);
    assert!(!path.is_empty(), "A* should find a valid path.");
    assert_eq!(path.first(), Some(&start), "Path should start at the start position.");
    assert_eq!(path.last(), Some(&goal), "Path should end at the goal position.");
}

#[test]
fn test_a_star_no_solution() {
    let mut grid = generate_test_grid((5, 5), vec![]);
    for row in 0..5 {
        grid[row][2] = true;
    }
    let start = (0, 0);
    let goal = (4, 4);
    let path = a_star_grid(&grid, start, goal);
    assert!(path.is_empty(), "A* should return an empty path when no solution exists.");
}

#[test]
fn test_a_star_target_edge_case() {
    let grid = generate_test_grid((5, 5), vec![]);
    let start = (2, 2);
    let goal = (0, 4);
    let path = a_star_grid(&grid, start, goal);
    assert!(!path.is_empty(), "A* should find a valid path to the edge target.");
    assert_eq!(path.first(), Some(&start), "Path should start at the start position.");
    assert_eq!(path.last(), Some(&goal), "Path should end at the edge target.");
}

#[test]
fn a_star_path_is_shortest_and_avoids_obstacles() {
    let grid = generate_test_grid((5, 5), vec![(1, 1), (1, 2), (1, 3), (2, 1), (3, 1), (3, 2), (3, 3)]);
    let path = a_star_grid(&grid, (0, 0), (4, 4));
    assert_walk(&grid, &path);
    assert_eq!(path.len(), 9);
    let open = generate_test_grid((5, 5), vec![]);
    let path = a_star_grid(&open, (2, 2), (0, 4));
    assert_walk(&open, &path);
    assert_eq!(path.len(), 5);
}

#[test]
fn a_star_start_is_goal() {
    let grid = generate_test_grid((3, 3), vec![]);
    assert_eq!(a_star_grid(&grid, (1, 1), (1, 1)), vec![(1, 1)]);
}

#[test]
fn a_star_goal_off_the_grid() {
    let grid = generate_test_grid((3, 3), vec![]);
    assert!(a_star_grid(&grid, (0, 0), (5, 5)).is_empty());
}
