use sphere_sweeper::board::{Board, CellState};
use sphere_sweeper::engine::{
    chord_cell, collect_targets, first_hidden_target, process_reveal_queue, resolve_chord,
    reveal_cell, sweep, ChordCell, RevealCell,
};
use sphere_sweeper::mines::{candidate_cells, place_mines};
use sphere_sweeper::session::{check_win_condition, AppState, GameSession};
use sphere_sweeper::topology::generate_goldberg_polyhedron;

fn ring(n: usize) -> Vec<Vec<usize>> {
    (0..n).map(|i| vec![(i + n - 1) % n, (i + 1) % n]).collect()
}

fn order_with_mines_first(pool: &Vec<usize>, mines: &[usize]) -> Vec<usize> {
    let mut order: Vec<usize> = mines.to_vec();
    for &id in pool {
        if !mines.contains(&id) {
            order.push(id);
        }
    }
    order
}

/// A ring of ten cells at level 1, one mine, on cell `mine`; the safe zone
/// is round cell 0.
fn ring_with_mine(mine: usize) -> (Board, GameSession) {
    let mut board = Board::new(&ring(10)).unwrap();
    let mut s = GameSession::default();
    s.start_level(board.len());
    let pool = candidate_cells(&board, 0);
    let order = order_with_mines_first(&pool, &[mine]);
    place_mines(&mut board, 0, &mut s, &order);
    (board, s)
}

fn states(board: &Board) -> Vec<CellState> {
    board.cells().iter().map(|c| c.state).collect()
}

fn revealed(board: &Board) -> Vec<usize> {
    board.cells().iter().filter(|c| c.state == CellState::Revealed).map(|c| c.id).collect()
}

/// The cells a reveal of `start` must reach, found by a plain search.
fn expected_sweep(board: &Board, start: usize) -> Vec<usize> {
    let cells = board.cells();
    let mut seen = vec![false; cells.len()];
    let mut stack = vec![start];
    while let Some(id) = stack.pop() {
        if seen[id] || cells[id].state != CellState::Hidden {
            continue;
        }
        seen[id] = true;
        if !cells[id].is_mine && cells[id].adjacent_mines == 0 {
            for &n in &cells[id].neighbor_ids {
                stack.push(n);
            }
        }
    }
    (0..cells.len()).filter(|&i| seen[i]).collect()
}

#[test]
fn flood_fill_stops_at_cells_next_to_a_mine() {
    let (mut board, mut s) = ring_with_mine(5);
    let next = reveal_cell(&mut board, &mut s, 0);
    assert_eq!(next, None);
    assert_eq!(revealed(&board), vec![0, 1, 2, 3, 4, 6, 7, 8, 9]);
    assert_eq!(board.cell(5).unwrap().state, CellState::Hidden);
    assert_eq!(s.cells_revealed, 9);
    assert!(board.is_in_step(&s));
    assert_eq!(check_win_condition(&s), Some(AppState::Victory));
}

#[test]
fn cell_next_to_a_mine_reveals_alone() {
    let (mut board, mut s) = ring_with_mine(5);
    assert_eq!(reveal_cell(&mut board, &mut s, 4), None);
    assert_eq!(revealed(&board), vec![4]);
    assert_eq!(s.cells_revealed, 1);
    assert_eq!(check_win_condition(&s), None);
}

#[test]
fn revealing_a_mine_ends_the_game() {
    let (mut board, mut s) = ring_with_mine(5);
    assert_eq!(reveal_cell(&mut board, &mut s, 5), Some(AppState::GameOver));
    assert_eq!(revealed(&board), vec![5]);
    assert_eq!(s.cells_revealed, 1);
    assert!(board.is_in_step(&s));
}

#[test]
fn reveal_of_a_revealed_cell_is_a_no_op_both_times() {
    let (mut board, mut s) = ring_with_mine(5);
    reveal_cell(&mut board, &mut s, 4);
    let board_before = board.clone();
    let session_before = s;
    assert_eq!(reveal_cell(&mut board, &mut s, 4), None);
    assert_eq!(board, board_before);
    assert_eq!(s, session_before);
    assert_eq!(reveal_cell(&mut board, &mut s, 4), None);
    assert_eq!(board, board_before);
    assert_eq!(s, session_before);
    assert_eq!(s.cells_revealed, 1);
}

#[test]
fn reveal_of_a_flagged_or_missing_cell_is_ignored() {
    let (mut board, mut s) = ring_with_mine(5);
    board.toggle_flag(&mut s, 3);
    let board_before = board.clone();
    let session_before = s;
    assert_eq!(reveal_cell(&mut board, &mut s, 3), None);
    assert_eq!(reveal_cell(&mut board, &mut s, 10), None);
    assert_eq!(reveal_cell(&mut board, &mut s, usize::MAX), None);
    assert_eq!(board, board_before);
    assert_eq!(s, session_before);
}

#[test]
fn a_flag_blocks_the_flood() {
    let (mut board, mut s) = ring_with_mine(5);
    board.toggle_flag(&mut s, 2);
    assert_eq!(reveal_cell(&mut board, &mut s, 0), None);
    assert_eq!(revealed(&board), vec![0, 1, 6, 7, 8, 9]);
    assert_eq!(board.cell(2).unwrap().state, CellState::Flagged);
    assert_eq!(board.cell(3).unwrap().state, CellState::Hidden);
    assert_eq!(s.cells_revealed, 6);
    assert_eq!(s.flags_placed, 1);
}

#[test]
fn each_cell_is_counted_once_however_often_it_is_asked_for() {
    let (mut board, mut s) = ring_with_mine(5);
    let hit = sweep(&mut board, &mut s, vec![4, 4, 6, 4, 6, 99]);
    assert!(!hit);
    assert_eq!(revealed(&board), vec![4, 6]);
    assert_eq!(s.cells_revealed, 2);
}

#[test]
fn sweep_goes_on_after_a_mine() {
    let (mut board, mut s) = ring_with_mine(5);
    let hit = sweep(&mut board, &mut s, vec![4, 5, 6]);
    assert!(hit);
    assert_eq!(revealed(&board), vec![4, 5, 6]);
    assert_eq!(s.cells_revealed, 3);
}

#[test]
fn chord_with_matching_flags_reveals_hidden_neighbors() {
    let (mut board, mut s) = ring_with_mine(5);
    board.toggle_flag(&mut s, 5);
    board.toggle_flag(&mut s, 2);
    reveal_cell(&mut board, &mut s, 0);
    reveal_cell(&mut board, &mut s, 4);
    assert_eq!(revealed(&board), vec![0, 1, 4, 6, 7, 8, 9]);
    assert_eq!(resolve_chord(&board, 4), vec![3]);
    assert_eq!(chord_cell(&mut board, &mut s, 4), None);
    assert_eq!(revealed(&board), vec![0, 1, 3, 4, 6, 7, 8, 9]);
    assert_eq!(s.cells_revealed, 8);
    assert!(board.is_in_step(&s));
}

#[test]
fn chord_with_other_flag_count_changes_nothing() {
    let (mut board, mut s) = ring_with_mine(5);
    reveal_cell(&mut board, &mut s, 4);
    let board_before = board.clone();
    let session_before = s;
    assert_eq!(resolve_chord(&board, 4), Vec::<usize>::new());
    assert_eq!(chord_cell(&mut board, &mut s, 4), None);
    assert_eq!(board, board_before);
    assert_eq!(s, session_before);
    board.toggle_flag(&mut s, 3);
    board.toggle_flag(&mut s, 5);
    let board_before = board.clone();
    let session_before = s;
    assert_eq!(resolve_chord(&board, 4), Vec::<usize>::new());
    assert_eq!(chord_cell(&mut board, &mut s, 4), None);
    assert_eq!(board, board_before);
    assert_eq!(s, session_before);
}

#[test]
fn chord_on_a_hidden_or_missing_cell_changes_nothing() {
    let (mut board, mut s) = ring_with_mine(5);
    let board_before = board.clone();
    assert_eq!(resolve_chord(&board, 0), Vec::<usize>::new());
    assert_eq!(resolve_chord(&board, 10), Vec::<usize>::new());
    assert_eq!(chord_cell(&mut board, &mut s, 0), None);
    assert_eq!(chord_cell(&mut board, &mut s, 10), None);
    assert_eq!(board, board_before);
    assert_eq!(s.cells_revealed, 0);
}

#[test]
fn chord_behind_a_wrong_flag_hits_the_mine() {
    let (mut board, mut s) = ring_with_mine(5);
    reveal_cell(&mut board, &mut s, 4);
    board.toggle_flag(&mut s, 3);
    assert_eq!(resolve_chord(&board, 4), vec![5]);
    assert_eq!(chord_cell(&mut board, &mut s, 4), Some(AppState::GameOver));
    assert_eq!(board.cell(5).unwrap().state, CellState::Revealed);
    assert_eq!(board.cell(3).unwrap().state, CellState::Flagged);
    assert_eq!(s.cells_revealed, 2);
}

#[test]
fn work_queue_holds_reveals_then_chord_targets() {
    let (mut board, mut s) = ring_with_mine(5);
    reveal_cell(&mut board, &mut s, 4);
    reveal_cell(&mut board, &mut s, 6);
    board.toggle_flag(&mut s, 5);
    let queue = collect_targets(
        &board,
        &vec![RevealCell(8), RevealCell(77), RevealCell(1)],
        &vec![ChordCell(6), ChordCell(0), ChordCell(4)],
    );
    assert_eq!(queue, vec![8, 77, 1, 7, 3]);
    assert_eq!(collect_targets(&board, &vec![], &vec![]), Vec::<usize>::new());
}

#[test]
fn first_hidden_target_skips_what_cannot_be_revealed() {
    let (mut board, mut s) = ring_with_mine(5);
    reveal_cell(&mut board, &mut s, 4);
    board.toggle_flag(&mut s, 3);
    assert_eq!(first_hidden_target(&board, &vec![4, 10, 3, 6, 2]), Some(6));
    assert_eq!(first_hidden_target(&board, &vec![4, 10, 3]), None);
    assert_eq!(first_hidden_target(&board, &vec![]), None);
}

#[test]
fn tick_with_reveals_and_chords() {
    let (mut board, mut s) = ring_with_mine(5);
    reveal_cell(&mut board, &mut s, 4);
    board.toggle_flag(&mut s, 5);
    let next = process_reveal_queue(
        &mut board,
        &mut s,
        &vec![RevealCell(6)],
        &vec![ChordCell(4)],
    );
    assert_eq!(next, None);
    assert_eq!(revealed(&board), vec![0, 1, 2, 3, 4, 6, 7, 8, 9]);
    assert_eq!(s.cells_revealed, 9);
    assert_eq!(check_win_condition(&s), Some(AppState::Victory));
}

#[test]
fn tick_that_reveals_a_mine_reports_game_over() {
    let (mut board, mut s) = ring_with_mine(5);
    let next = process_reveal_queue(
        &mut board,
        &mut s,
        &vec![RevealCell(0), RevealCell(5)],
        &vec![],
    );
    assert_eq!(next, Some(AppState::GameOver));
    assert_eq!(s.cells_revealed, 10);
    assert_eq!(board.count_in_state(CellState::Revealed), 10);
}

#[test]
fn empty_tick_changes_nothing() {
    let (mut board, mut s) = ring_with_mine(5);
    let board_before = board.clone();
    let session_before = s;
    assert_eq!(process_reveal_queue(&mut board, &mut s, &vec![], &vec![]), None);
    assert_eq!(board, board_before);
    assert_eq!(s, session_before);
}

#[test]
fn first_reveal_places_the_mines_round_a_safe_zone() {
    let p = generate_goldberg_polyhedron(2);
    for anchor in [0usize, 50, 161] {
        let mut board = Board::new(&p.adjacency).unwrap();
        let mut s = GameSession::default();
        s.start_level(board.len());
        let next = process_reveal_queue(&mut board, &mut s, &vec![RevealCell(anchor)], &vec![]);
        assert_eq!(next, None);
        assert!(board.mines_placed());
        assert_eq!(s.total_mines, 24);
        assert_eq!(board.cells().iter().filter(|c| c.is_mine).count(), 24);
        assert_eq!(board.cell(anchor).unwrap().state, CellState::Revealed);
        assert!(!board.cell(anchor).unwrap().is_mine);
        for &n in board.neighbors(anchor).unwrap() {
            assert!(!board.cells()[n].is_mine);
            assert_eq!(board.cells()[n].state, CellState::Revealed);
        }
        assert!(s.cells_revealed >= 1 + board.neighbors(anchor).unwrap().len());
        assert!(board.is_in_step(&s));
        for cell in board.cells() {
            assert!(!(cell.is_mine && cell.state == CellState::Revealed));
        }
    }
}

#[test]
fn mines_are_placed_once() {
    let p = generate_goldberg_polyhedron(1);
    let mut board = Board::new(&p.adjacency).unwrap();
    let mut s = GameSession::default();
    s.start_level(board.len());
    process_reveal_queue(&mut board, &mut s, &vec![RevealCell(0)], &vec![]);
    let mines: Vec<bool> = board.cells().iter().map(|c| c.is_mine).collect();
    assert_eq!(s.total_mines, 6);
    for id in 0..board.len() {
        if !board.cells()[id].is_mine {
            process_reveal_queue(&mut board, &mut s, &vec![RevealCell(id)], &vec![]);
        }
        let now: Vec<bool> = board.cells().iter().map(|c| c.is_mine).collect();
        assert_eq!(now, mines);
    }
    assert_eq!(s.total_mines, 6);
    assert_eq!(s.cells_revealed, 36);
    assert_eq!(check_win_condition(&s), Some(AppState::Victory));
}

#[test]
fn tick_without_a_hidden_target_places_no_mines() {
    let mut board = Board::new(&ring(10)).unwrap();
    let mut s = GameSession::default();
    s.start_level(board.len());
    board.toggle_flag(&mut s, 2);
    let board_before = board.clone();
    let session_before = s;
    let next = process_reveal_queue(
        &mut board,
        &mut s,
        &vec![RevealCell(2), RevealCell(10)],
        &vec![ChordCell(1)],
    );
    assert_eq!(next, None);
    assert!(!board.mines_placed());
    assert_eq!(board, board_before);
    assert_eq!(s, session_before);
}

#[test]
fn first_hidden_target_anchors_the_safe_zone() {
    let mut board = Board::new(&ring(10)).unwrap();
    let mut s = GameSession { level: 20, max_level: 20, ..GameSession::default() };
    s.start_level(board.len());
    board.toggle_flag(&mut s, 2);
    process_reveal_queue(&mut board, &mut s, &vec![RevealCell(2), RevealCell(7)], &vec![]);
    assert!(board.mines_placed());
    assert_eq!(s.total_mines, 5);
    for id in [6usize, 7, 8] {
        assert!(!board.cells()[id].is_mine);
    }
    assert_eq!(board.cell(7).unwrap().state, CellState::Revealed);
    assert_eq!(board.cell(2).unwrap().state, CellState::Flagged);
}

#[test]
fn cascade_over_a_zero_cell_and_its_five_zero_neighbors() {
    let p = generate_goldberg_polyhedron(1);
    let mut board = Board::new(&p.adjacency).unwrap();
    assert_eq!(board.len(), 42);
    let mut s = GameSession::default();
    s.start_level(board.len());
    let ring1: Vec<usize> = board.neighbors(0).unwrap().clone();
    assert_eq!(ring1.len(), 5);
    let mut near: Vec<usize> = vec![0];
    near.extend(ring1.iter().copied());
    for &n in &ring1 {
        for &m in board.neighbors(n).unwrap() {
            if !near.contains(&m) {
                near.push(m);
            }
        }
    }
    let pool = candidate_cells(&board, 0);
    let far: Vec<usize> = pool.iter().copied().filter(|id| !near.contains(id)).collect();
    assert!(far.len() >= 6);
    let order = order_with_mines_first(&pool, &far[..6]);
    place_mines(&mut board, 0, &mut s, &order);
    assert_eq!(s.total_mines, 6);
    assert_eq!(board.cells()[0].adjacent_mines, 0);
    for &n in &ring1 {
        assert_eq!(board.cells()[n].adjacent_mines, 0);
    }
    let expected = expected_sweep(&board, 0);
    let next = process_reveal_queue(&mut board, &mut s, &vec![RevealCell(0)], &vec![]);
    assert_eq!(next, None);
    assert_eq!(board.cell(0).unwrap().state, CellState::Revealed);
    for &n in &ring1 {
        assert_eq!(board.cells()[n].state, CellState::Revealed);
    }
    assert_eq!(revealed(&board), expected);
    assert!(expected.len() >= 6);
    assert_eq!(s.cells_revealed, expected.len());
}

#[test]
fn sweep_matches_a_plain_search_on_a_large_board() {
    let p = generate_goldberg_polyhedron(2);
    let mut board = Board::new(&p.adjacency).unwrap();
    let mut s = GameSession::default();
    s.start_level(board.len());
    let pool = candidate_cells(&board, 7);
    let mines: Vec<usize> = pool.iter().copied().filter(|id| id % 5 == 3).take(24).collect();
    assert_eq!(mines.len(), 24);
    place_mines(&mut board, 7, &mut s, &order_with_mines_first(&pool, &mines));
    board.toggle_flag(&mut s, 20);
    let expected = expected_sweep(&board, 7);
    let before = states(&board);
    assert_eq!(reveal_cell(&mut board, &mut s, 7), None);
    assert_eq!(revealed(&board), expected);
    for id in 0..board.len() {
        if !expected.contains(&id) {
            assert_eq!(board.cells()[id].state, before[id]);
        }
    }
    assert_eq!(s.cells_revealed, expected.len());
}

#[test]
fn first_click_never_hits_a_mine() {
    let p = generate_goldberg_polyhedron(1);
    for id in 0..42usize {
        let mut board = Board::new(&p.adjacency).unwrap();
        let mut s = GameSession { level: 13, max_level: 13, ..GameSession::default() };
        s.start_level(board.len());
        assert_eq!(reveal_cell(&mut board, &mut s, id), None);
        assert!(board.mines_placed());
        assert_eq!(s.total_mines, 21);
        assert_eq!(board.cells().iter().filter(|c| c.is_mine).count(), 21);
        assert_eq!(board.cell(id).unwrap().state, CellState::Revealed);
        assert_eq!(board.cell(id).unwrap().adjacent_mines, 0);
        for cell in board.cells() {
            assert!(!(cell.is_mine && cell.state == CellState::Revealed));
        }
        assert!(board.is_in_step(&s));
    }
}

#[test]
fn chord_before_placement_changes_nothing() {
    let mut board = Board::new(&ring(10)).unwrap();
    let mut s = GameSession::default();
    s.start_level(board.len());
    let board_before = board.clone();
    let session_before = s;
    assert_eq!(chord_cell(&mut board, &mut s, 3), None);
    assert_eq!(board, board_before);
    assert_eq!(s, session_before);
    assert!(!board.mines_placed());
}

#[test]
fn reveal_of_a_flag_before_placement_places_nothing() {
    let mut board = Board::new(&ring(10)).unwrap();
    let mut s = GameSession::default();
    s.start_level(board.len());
    board.toggle_flag(&mut s, 3);
    let board_before = board.clone();
    let session_before = s;
    assert_eq!(reveal_cell(&mut board, &mut s, 3), None);
    assert_eq!(reveal_cell(&mut board, &mut s, 10), None);
    assert_eq!(board, board_before);
    assert_eq!(s, session_before);
    assert!(!board.mines_placed());
}
