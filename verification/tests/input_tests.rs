use sphere_sweeper::board::{Board, CellState};
use sphere_sweeper::engine::{reveal_cell, ChordCell, RevealCell};
use sphere_sweeper::input::{
    menu_interaction, on_cell_click, reveal_all_mines, CellRequest, MenuButton, PointerButton,
};
use sphere_sweeper::level::spawn_board;
use sphere_sweeper::mines::place_mines;
use sphere_sweeper::session::{AppState, GameSession};

fn ring(n: usize) -> Vec<Vec<usize>> {
    (0..n).map(|i| vec![(i + n - 1) % n, (i + 1) % n]).collect()
}

fn fresh() -> (Board, GameSession) {
    let board = Board::new(&ring(10)).unwrap();
    let mut s = GameSession::default();
    s.start_level(board.len());
    (board, s)
}

#[test]
fn first_primary_click_starts_the_clock() {
    let (mut board, mut s) = fresh();
    let request = on_cell_click(&mut board, &mut s, 3, PointerButton::Primary, 1500);
    assert_eq!(request, Some(CellRequest::Reveal(RevealCell(3))));
    assert!(!s.is_first_click);
    assert_eq!(s.start_time, Some(1500));
    let request = on_cell_click(&mut board, &mut s, 4, PointerButton::Primary, 9000);
    assert_eq!(request, Some(CellRequest::Reveal(RevealCell(4))));
    assert_eq!(s.start_time, Some(1500));
    assert_eq!(board.count_in_state(CellState::Hidden), 10);
}

#[test]
fn primary_click_on_a_revealed_cell_asks_for_a_chord() {
    let (mut board, mut s) = fresh();
    place_mines(&mut board, 0, &mut s, &vec![5, 2, 3, 4, 6, 7, 8]);
    reveal_cell(&mut board, &mut s, 4);
    let before = s;
    let request = on_cell_click(&mut board, &mut s, 4, PointerButton::Primary, 10);
    assert_eq!(request, Some(CellRequest::Chord(ChordCell(4))));
    assert_eq!(s, before);
}

#[test]
fn primary_click_on_a_flag_or_off_the_board_asks_for_nothing() {
    let (mut board, mut s) = fresh();
    board.toggle_flag(&mut s, 2);
    let before = s;
    assert_eq!(on_cell_click(&mut board, &mut s, 2, PointerButton::Primary, 10), None);
    assert_eq!(on_cell_click(&mut board, &mut s, 10, PointerButton::Primary, 10), None);
    assert_eq!(on_cell_click(&mut board, &mut s, 1, PointerButton::Middle, 10), None);
    assert_eq!(s, before);
    assert!(s.is_first_click);
}

#[test]
fn secondary_click_toggles_the_flag() {
    let (mut board, mut s) = fresh();
    assert_eq!(on_cell_click(&mut board, &mut s, 6, PointerButton::Secondary, 10), None);
    assert_eq!(board.cell(6).unwrap().state, CellState::Flagged);
    assert_eq!(s.flags_placed, 1);
    assert!(s.is_first_click);
    assert_eq!(s.start_time, None);
    assert_eq!(on_cell_click(&mut board, &mut s, 6, PointerButton::Secondary, 10), None);
    assert_eq!(board.cell(6).unwrap().state, CellState::Hidden);
    assert_eq!(s.flags_placed, 0);
}

#[test]
fn secondary_click_on_a_revealed_cell_changes_nothing() {
    let (mut board, mut s) = fresh();
    place_mines(&mut board, 0, &mut s, &vec![5, 2, 3, 4, 6, 7, 8]);
    reveal_cell(&mut board, &mut s, 4);
    let board_before = board.clone();
    let before = s;
    assert_eq!(on_cell_click(&mut board, &mut s, 4, PointerButton::Secondary, 10), None);
    assert_eq!(board, board_before);
    assert_eq!(s, before);
}

#[test]
fn restart_after_victory_moves_to_the_next_level() {
    let mut s = GameSession { level: 2, max_level: 2, ..GameSession::default() };
    let next = menu_interaction(&mut s, AppState::Victory, MenuButton::Restart);
    assert_eq!(next, Some(AppState::Playing));
    assert_eq!(s.level, 3);
    assert_eq!(s.max_level, 2);
    let next = menu_interaction(&mut s, AppState::GameOver, MenuButton::Restart);
    assert_eq!(next, Some(AppState::Playing));
    assert_eq!(s.level, 3);
    let next = menu_interaction(&mut s, AppState::MainMenu, MenuButton::Restart);
    assert_eq!(next, Some(AppState::Playing));
    assert_eq!(s.level, 3);
}

#[test]
fn level_buttons_stay_between_one_and_the_highest_level() {
    let mut s = GameSession { level: 2, max_level: 3, ..GameSession::default() };
    assert_eq!(menu_interaction(&mut s, AppState::MainMenu, MenuButton::NextLevel), None);
    assert_eq!(s.level, 3);
    assert_eq!(menu_interaction(&mut s, AppState::MainMenu, MenuButton::NextLevel), None);
    assert_eq!(s.level, 3);
    assert_eq!(menu_interaction(&mut s, AppState::MainMenu, MenuButton::PrevLevel), None);
    assert_eq!(menu_interaction(&mut s, AppState::MainMenu, MenuButton::PrevLevel), None);
    assert_eq!(s.level, 1);
    assert_eq!(menu_interaction(&mut s, AppState::MainMenu, MenuButton::PrevLevel), None);
    assert_eq!(s.level, 1);
    assert_eq!(s.max_level, 3);
}

#[test]
fn mines_left_to_show_after_a_loss() {
    let (mut board, mut s) = fresh();
    s.level = 20;
    place_mines(&mut board, 0, &mut s, &vec![8, 2, 4, 6, 7, 3, 5]);
    assert_eq!(reveal_all_mines(&board), vec![2, 4, 6, 7, 8]);
    assert_eq!(reveal_cell(&mut board, &mut s, 4), Some(AppState::GameOver));
    assert_eq!(reveal_all_mines(&board), vec![2, 6, 7, 8]);
    board.toggle_flag(&mut s, 6);
    assert_eq!(reveal_all_mines(&board), vec![2, 6, 7, 8]);
}

#[test]
fn no_mines_to_show_before_placement() {
    let (board, _) = fresh();
    assert_eq!(reveal_all_mines(&board), Vec::<usize>::new());
}

#[test]
fn spawn_board_starts_the_level() {
    let mut s = GameSession {
        level: 1,
        max_level: 4,
        is_first_click: false,
        total_mines: 7,
        flags_placed: 3,
        cells_revealed: 20,
        total_cells: 42,
        start_time: Some(99),
    };
    let (polyhedron, board) = spawn_board(&mut s);
    assert_eq!(board.len(), 162);
    assert_eq!(polyhedron.adjacency.len(), 162);
    assert_eq!(
        s,
        GameSession {
            level: 1,
            max_level: 4,
            is_first_click: true,
            total_mines: 0,
            flags_placed: 0,
            cells_revealed: 0,
            total_cells: 162,
            start_time: None,
        }
    );
    assert!(!board.mines_placed());
    assert!(board.is_in_step(&s));
    for (i, cell) in board.cells().iter().enumerate() {
        assert_eq!(cell.neighbor_ids, polyhedron.adjacency[i]);
        assert_eq!(cell.state, CellState::Hidden);
    }
}

#[test]
fn spawn_board_grows_with_the_level() {
    let mut s = GameSession { level: 3, max_level: 3, ..GameSession::default() };
    let (_, board) = spawn_board(&mut s);
    assert_eq!(board.len(), 642);
    assert_eq!(s.total_cells, 642);
    let mut s = GameSession { level: 6, max_level: 6, ..GameSession::default() };
    let (_, board) = spawn_board(&mut s);
    assert_eq!(board.len(), 2562);
    assert_eq!(s.total_cells, 2562);
}
