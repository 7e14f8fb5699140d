use tic_tac_toe::grid_search::iterative_deepening_dfs_grid;

fn generate_balanced_grid(rows: usize, cols: usize) -> (Vec<Vec<char>>, (usize, usize)) {
    let mut grid = Vec::new();
    let mut current_char = b'A';
    for _ in 0..rows {
        let mut row = Vec::new();
        for _ in 0..cols {
            row.push(current_char as char);
            current_char += 1;
            if current_char > b'Z' {
                current_char = b'A';
            }
        }
        grid.push(row);
    }
    (grid, (0, 0))
}

#[test]
fn test_iterative_deepening_dfs_grid_balanced_with_target_found() {
    let (graph, start) = generate_balanced_grid(3, 3);
    let (found, position) = iterative_deepening_dfs_grid(&graph, start, &'C', 3);
    assert_eq!(found, true);
    assert_eq!(position, Some((0, 2)));
}

#[test]
fn test_iterative_deepening_dfs_grid_balanced_with_target_not_found() {
    let (graph, start) = generate_balanced_grid(3, 3);
    let (found, position) = iterative_deepening_dfs_grid(&graph, start, &'Z', 3);
    assert_eq!(found, false);
    assert_eq!(position, None);
}

#[test]
fn iterative_deepening_stops_at_the_depth_limit() {
    let (graph, start) = generate_balanced_grid(3, 3);
    // 'C' is three cells away counting the start: a limit of 2 falls short.
    assert_eq!(iterative_deepening_dfs_grid(&graph, start, &'C', 2), (false, None));
    assert_eq!(iterative_deepening_dfs_grid(&graph, start, &'A', 0), (false, None));
    assert_eq!(iterative_deepening_dfs_grid(&graph, start, &'A', 1), (true, Some((0, 0))));
}
