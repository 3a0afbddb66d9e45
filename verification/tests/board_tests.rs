use sphere_sweeper::board::{
    is_valid_adjacency, list_contains, list_is_duplicate_free, Board, CellState, MAX_NEIGHBORS,
};
use sphere_sweeper::session::GameSession;

fn ring(n: usize) -> Vec<Vec<usize>> {
    (0..n).map(|i| vec![(i + n - 1) % n, (i + 1) % n]).collect()
}

fn session_for(board: &Board) -> GameSession {
    let mut s = GameSession::default();
    s.start_level(board.len());
    s
}

#[test]
fn new_board_is_hidden_and_unmined() {
    let board = Board::new(&ring(6)).unwrap();
    assert_eq!(board.len(), 6);
    assert!(!board.mines_placed());
    for (i, cell) in board.cells().iter().enumerate() {
        assert_eq!(cell.id, i);
        assert_eq!(cell.neighbor_ids, vec![(i + 5) % 6, (i + 1) % 6]);
        assert!(!cell.is_mine);
        assert_eq!(cell.state, CellState::Hidden);
        assert_eq!(cell.adjacent_mines, 0);
    }
    assert_eq!(CellState::default(), CellState::Hidden);
}

#[test]
fn empty_board_is_valid() {
    let board = Board::new(&Vec::new()).unwrap();
    assert_eq!(board.len(), 0);
    assert!(board.cell(0).is_none());
}

#[test]
fn asymmetric_adjacency_is_refused() {
    let adjacency = vec![vec![1], vec![]];
    assert!(!is_valid_adjacency(&adjacency));
    assert!(Board::new(&adjacency).is_none());
}

#[test]
fn self_loop_is_refused() {
    let adjacency = vec![vec![0]];
    assert!(!is_valid_adjacency(&adjacency));
    assert!(Board::new(&adjacency).is_none());
}

#[test]
fn double_edge_is_refused() {
    let adjacency = vec![vec![1, 1], vec![0, 0]];
    assert!(!is_valid_adjacency(&adjacency));
    assert!(Board::new(&adjacency).is_none());
}

#[test]
fn neighbor_off_the_board_is_refused() {
    let adjacency = vec![vec![1], vec![0, 2]];
    assert!(!is_valid_adjacency(&adjacency));
    assert!(Board::new(&adjacency).is_none());
}

#[test]
fn too_many_neighbors_are_refused() {
    let n = MAX_NEIGHBORS + 2;
    let mut star: Vec<Vec<usize>> = vec![Vec::new(); n];
    for i in 1..n {
        star[0].push(i);
        star[i].push(0);
    }
    assert!(!is_valid_adjacency(&star));
    let n = MAX_NEIGHBORS + 1;
    let mut star: Vec<Vec<usize>> = vec![Vec::new(); n];
    for i in 1..n {
        star[0].push(i);
        star[i].push(0);
    }
    assert!(is_valid_adjacency(&star));
    assert!(Board::new(&star).is_some());
}

#[test]
fn list_helpers() {
    assert!(list_contains(&vec![3, 1, 2], 1));
    assert!(!list_contains(&vec![3, 1, 2], 4));
    assert!(!list_contains(&vec![], 0));
    assert!(list_is_duplicate_free(&vec![3, 1, 2]));
    assert!(list_is_duplicate_free(&vec![]));
    assert!(!list_is_duplicate_free(&vec![3, 1, 3]));
}

#[test]
fn lookup_by_id() {
    let board = Board::new(&ring(5)).unwrap();
    assert_eq!(board.cell(4).unwrap().id, 4);
    assert!(board.cell(5).is_none());
    assert_eq!(board.neighbors(0).unwrap(), &vec![4, 1]);
    assert!(board.neighbors(5).is_none());
}

#[test]
fn flag_and_unflag_round_trip() {
    let mut board = Board::new(&ring(5)).unwrap();
    let mut s = session_for(&board);
    let before = board.clone();
    board.toggle_flag(&mut s, 2);
    assert_eq!(board.cell(2).unwrap().state, CellState::Flagged);
    assert_eq!(s.flags_placed, 1);
    assert_eq!(board.count_in_state(CellState::Flagged), 1);
    assert!(board.is_in_step(&s));
    board.toggle_flag(&mut s, 2);
    assert_eq!(board.cell(2).unwrap().state, CellState::Hidden);
    assert_eq!(s.flags_placed, 0);
    assert_eq!(board, before);
    assert!(board.is_in_step(&s));
}

#[test]
fn several_flags_are_counted() {
    let mut board = Board::new(&ring(5)).unwrap();
    let mut s = session_for(&board);
    board.toggle_flag(&mut s, 0);
    board.toggle_flag(&mut s, 3);
    board.toggle_flag(&mut s, 4);
    assert_eq!(s.flags_placed, 3);
    board.toggle_flag(&mut s, 3);
    assert_eq!(s.flags_placed, 2);
    assert_eq!(board.count_in_state(CellState::Hidden), 3);
    assert_eq!(board.count_in_state(CellState::Revealed), 0);
}

#[test]
fn flag_on_missing_cell_changes_nothing() {
    let mut board = Board::new(&ring(5)).unwrap();
    let mut s = session_for(&board);
    let before = board.clone();
    board.toggle_flag(&mut s, 5);
    board.toggle_flag(&mut s, usize::MAX);
    assert_eq!(board, before);
    assert_eq!(s.flags_placed, 0);
}

#[test]
fn session_out_of_step_is_noticed() {
    let board = Board::new(&ring(5)).unwrap();
    let mut s = session_for(&board);
    assert!(board.is_in_step(&s));
    s.flags_placed = 1;
    assert!(!board.is_in_step(&s));
    s.flags_placed = 0;
    s.cells_revealed = 2;
    assert!(!board.is_in_step(&s));
    s.cells_revealed = 0;
    s.total_cells = 6;
    assert!(!board.is_in_step(&s));
}
