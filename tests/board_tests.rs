use tic_tac_toe::board::Board;
use tic_tac_toe::game_state::{GameState, Player};

fn board_from(moves: &[(usize, usize, Player)]) -> Board {
    let mut b = Board::new();
    for &(r, c, p) in moves {
        assert!(b.make_move(r, c, &p));
    }
    b
}

/// Winner by a plain scan of all eight lines, independent of the library.
fn scan(b: &Board) -> GameState {
    let lines = [
        [(0, 0), (0, 1), (0, 2)],
        [(1, 0), (1, 1), (1, 2)],
        [(2, 0), (2, 1), (2, 2)],
        [(0, 0), (1, 0), (2, 0)],
        [(0, 1), (1, 1), (2, 1)],
        [(0, 2), (1, 2), (2, 2)],
        [(0, 0), (1, 1), (2, 2)],
        [(0, 2), (1, 1), (2, 0)],
    ];
    for line in lines.iter() {
        let a = b.cell(line[0].0, line[0].1);
        if a.is_some() && a == b.cell(line[1].0, line[1].1) && a == b.cell(line[2].0, line[2].1) {
            return GameState::Win(a.unwrap());
        }
    }
    let mut full = true;
    for r in 0..3 {
        for c in 0..3 {
            if b.cell(r, c).is_none() {
                full = false;
            }
        }
    }
    if full {
        GameState::Draw
    } else {
        GameState::Ongoing
    }
}

fn walk(moves: &mut Vec<(usize, usize, Player)>, player: Player, count: &mut usize) {
    let b = board_from(moves);
    let state = b.get_winner();
    assert_eq!(state, scan(&b));
    *count += 1;
    if state != GameState::Ongoing {
        return;
    }
    for (r, c) in b.available_moves() {
        moves.push((r, c, player));
        walk(moves, player.opponent(), count);
        moves.pop();
    }
}

#[test]
fn new_board_is_empty() {
    let b = Board::new();
    for r in 0..3 {
        for c in 0..3 {
            assert_eq!(b.cell(r, c), None);
        }
    }
    assert_eq!(b.get_winner(), GameState::Ongoing);
    assert_eq!(b.available_moves().len(), 9);
}

#[test]
fn make_move_on_taken_cell_fails_without_change() {
    let mut b = Board::new();
    assert!(b.make_move(1, 1, &Player::X));
    assert!(!b.make_move(1, 1, &Player::O));
    assert_eq!(b.cell(1, 1), Some(Player::X));
}

#[test]
fn make_move_off_the_board_fails() {
    let mut b = Board::new();
    assert!(!b.make_move(3, 0, &Player::X));
    assert!(!b.make_move(0, 7, &Player::X));
    assert_eq!(b.available_moves().len(), 9);
}

#[test]
fn undo_move_empties_the_cell() {
    let mut b = Board::new();
    let before = b.hash_state();
    assert!(b.make_move(2, 1, &Player::O));
    b.undo_move(2, 1);
    assert_eq!(b.cell(2, 1), None);
    assert_eq!(b.hash_state(), before);
}

#[test]
fn available_moves_in_row_major_order() {
    let b = board_from(&[(0, 1, Player::X), (1, 1, Player::O), (2, 0, Player::X)]);
    assert_eq!(
        b.available_moves(),
        vec![(0, 0), (0, 2), (1, 0), (1, 2), (2, 1), (2, 2)]
    );
}

#[test]
fn winner_on_row_column_and_diagonals() {
    let row = board_from(&[(1, 0, Player::O), (1, 1, Player::O), (1, 2, Player::O)]);
    assert_eq!(row.get_winner(), GameState::Win(Player::O));
    let col = board_from(&[(0, 2, Player::X), (1, 2, Player::X), (2, 2, Player::X)]);
    assert_eq!(col.get_winner(), GameState::Win(Player::X));
    let diag = board_from(&[(0, 0, Player::X), (1, 1, Player::X), (2, 2, Player::X)]);
    assert_eq!(diag.get_winner(), GameState::Win(Player::X));
    let anti = board_from(&[(0, 2, Player::O), (1, 1, Player::O), (2, 0, Player::O)]);
    assert_eq!(anti.get_winner(), GameState::Win(Player::O));
}

#[test]
fn full_board_without_line_is_a_draw() {
    // X O X / X O O / O X X
    let b = board_from(&[
        (0, 0, Player::X),
        (0, 1, Player::O),
        (0, 2, Player::X),
        (1, 0, Player::X),
        (1, 1, Player::O),
        (1, 2, Player::O),
        (2, 0, Player::O),
        (2, 1, Player::X),
        (2, 2, Player::X),
    ]);
    assert_eq!(b.get_winner(), GameState::Draw);
    assert!(b.available_moves().is_empty());
}

#[test]
fn winner_matches_line_scan_on_every_reachable_board() {
    let mut count = 0;
    walk(&mut Vec::new(), Player::X, &mut count);
    // Every position of every game played to its end.
    assert_eq!(count, 549946);
}

#[test]
fn hash_state_is_stable_and_changes_with_a_cell() {
    let mut b = Board::new();
    let h0 = b.hash_state();
    assert_eq!(b.hash_state(), h0);
    assert_eq!(h0, 0);
    b.make_move(0, 0, &Player::X);
    let h1 = b.hash_state();
    assert_ne!(h1, h0);
    assert_eq!(h1, 1);
    b.make_move(0, 1, &Player::O);
    assert_eq!(b.hash_state(), 1 + 3 * 2);
}

#[test]
fn opponent_swaps_players() {
    assert_eq!(Player::X.opponent(), Player::O);
    assert_eq!(Player::O.opponent(), Player::X);
}
