use tic_tac_toe::grid_search::dfs_grid;

#[test]
fn test_dfs_search_value_with_single_element_grid_is_found() {
    let grid = vec![vec![true]];
    let start = (0, 0);
    let target_value = true;
    let (found, position) = dfs_grid(&grid, start, &target_value);
    assert!(found, "DFS should find the target value in the grid.");
    assert_eq!(
        position,
        Some((0, 0)),
        "DFS should return the correct position of the target value."
    );
}

#[test]
fn test_dfs_search_value_with_single_element_grid_is_not_found() {
    let grid = vec![vec![true]];
    let start = (0, 0);
    let target_value = false;
    let (found, position) = dfs_grid(&grid, start, &target_value);
    assert!(!found, "DFS should not find a value that is not in the grid.");
    assert_eq!(position, None, "DFS should return None when value is not found.");
}

#[test]
fn test_dfs_search_value_found() {
    let grid = vec![vec![1, 2, 3], vec![4, 5, 6], vec![7, 8, 9]];
    let start = (0, 0);
    let target_value = 5;
    let (found, position) = dfs_grid(&grid, start, &target_value);
    assert!(found, "DFS should find the target value in the grid.");
    assert_eq!(
        position,
        Some((1, 1)),
        "DFS should return the correct position of the target value."
    );
}

#[test]
fn test_dfs_search_value_not_found() {
    let grid = vec![vec![1, 2, 3], vec![4, 5, 6], vec![7, 8, 9]];
    let start = (0, 0);
    let target_value = 10;
    let (found, position) = dfs_grid(&grid, start, &target_value);
    assert!(
        !found,
        "DFS should not find a value that does not exist in the grid."
    );
    assert_eq!(position, None, "DFS should return None when value is not found.");
}

#[test]
fn test_dfs_search_large_grid_value_found() {
    let grid = vec![
        vec!["a", "b", "c", "d", "e"],
        vec!["f", "g", "h", "i", "j"],
        vec!["k", "l", "m", "n", "o"],
        vec!["p", "q", "r", "s", "t"],
        vec!["u", "v", "w", "x", "y"],
    ];
    let start = (0, 0);
    let target_value = "m";
    let (found, position) = dfs_grid(&grid, start, &target_value);
    assert!(found, "DFS should find the target value 'm' in the grid.");
    assert_eq!(
        position,
        Some((2, 2)),
        "DFS should return the correct position of the target value 'm'."
    );
}

#[test]
fn test_dfs_search_large_grid_value_not_found() {
    let grid = vec![
        vec!["a", "b", "c", "d", "e"],
        vec!["f", "g", "h", "i", "j"],
        vec!["k", "l", "m", "n", "o"],
        vec!["p", "q", "r", "s", "t"],
        vec!["u", "v", "w", "x", "y"],
    ];
    let start = (0, 0);
    let target_value = "z";
    let (found, position) = dfs_grid(&grid, start, &target_value);
    assert!(
        !found,
        "DFS should not find the target value 'z' in the grid."
    );
    assert_eq!(
        position,
        None,
        "DFS should return None when the target value 'z' is not found."
    );
}

fn generate_balanced_grid(rows: usize, cols: usize) -> (Vec<Vec<char>>, (usize, usize)) {
    let mut grid = Vec::new();
    let mut current_char = b'A';
    for _ in 0..rows {
        let mut row = Vec::new();
        for _ in 0..cols {
            row.push(current_char as char);
            current_char += 1;
            if current_char > b'Z' {
                current_char = b'A';
            }
        }
        grid.push(row);
    }
    (grid, (0, 0))
}

#[test]
fn test_dfs_graph_balanced_with_target_found() {
    let (graph, start) = generate_balanced_grid(3, 3);
    let (found, position) = dfs_grid(&graph, start, &'C');
    assert_eq!(found, true);
    assert_eq!(position, Some((0, 2)));
}

#[test]
fn test_dfs_graph_balanced_with_target_not_found() {
    let (graph, start) = generate_balanced_grid(3, 3);
    let (found, position) = dfs_grid(&graph, start, &'Z');
    assert_eq!(found, false);
    assert_eq!(position, None);
}

#[test]
fn dfs_grid_start_off_the_grid_finds_nothing() {
    let grid = vec![vec![1, 2], vec![3, 4]];
    assert_eq!(dfs_grid(&grid, (0, 5), &1), (false, None));
}
