use sphere_sweeper::board::Board;
use sphere_sweeper::mines::{
    candidate_cells, count_mine_neighbors, initialize_mines, is_shuffled_pool, place_mines,
};
use sphere_sweeper::session::GameSession;
use sphere_sweeper::topology::generate_goldberg_polyhedron;

fn ring(n: usize) -> Vec<Vec<usize>> {
    (0..n).map(|i| vec![(i + n - 1) % n, (i + 1) % n]).collect()
}

fn session_at(board: &Board, level: u32) -> GameSession {
    let mut s = GameSession { level, max_level: level, ..GameSession::default() };
    s.start_level(board.len());
    s
}

fn mines_of(board: &Board) -> Vec<usize> {
    board.cells().iter().filter(|c| c.is_mine).map(|c| c.id).collect()
}

fn assert_counts_exact(board: &Board) {
    for cell in board.cells() {
        if !cell.is_mine {
            let expected = cell.neighbor_ids.iter().filter(|&&n| board.cells()[n].is_mine).count();
            assert_eq!(cell.adjacent_mines as usize, expected);
            assert_eq!(count_mine_neighbors(board, cell.id) as usize, expected);
        }
    }
}

#[test]
fn candidate_pool_leaves_out_the_safe_zone() {
    let board = Board::new(&ring(10)).unwrap();
    assert_eq!(candidate_cells(&board, 0), vec![2, 3, 4, 5, 6, 7, 8]);
    assert_eq!(candidate_cells(&board, 5), vec![0, 1, 2, 3, 7, 8, 9]);
    let tiny = Board::new(&ring(3)).unwrap();
    assert_eq!(candidate_cells(&tiny, 1), Vec::<usize>::new());
}

#[test]
fn mines_go_to_the_head_of_the_order() {
    let mut board = Board::new(&ring(10)).unwrap();
    let mut s = session_at(&board, 1);
    place_mines(&mut board, 0, &mut s, &vec![5, 2, 3, 4, 6, 7, 8]);
    assert!(board.mines_placed());
    assert_eq!(s.total_mines, 1);
    assert_eq!(mines_of(&board), vec![5]);
    let adjacent: Vec<u8> = board.cells().iter().map(|c| c.adjacent_mines).collect();
    assert_eq!(adjacent, vec![0, 0, 0, 0, 1, 0, 1, 0, 0, 0]);
    assert_counts_exact(&board);
    assert!(board.is_in_step(&s));
}

#[test]
fn half_the_cells_are_mined_at_high_level() {
    let mut board = Board::new(&ring(10)).unwrap();
    let mut s = session_at(&board, 20);
    place_mines(&mut board, 0, &mut s, &vec![8, 2, 4, 6, 7, 3, 5]);
    assert_eq!(s.total_mines, 5);
    assert_eq!(mines_of(&board), vec![2, 4, 6, 7, 8]);
    let adjacent: Vec<u8> = board.cells().iter().map(|c| c.adjacent_mines).collect();
    assert_eq!(adjacent, vec![0, 1, 0, 2, 0, 2, 0, 0, 0, 1]);
    assert_counts_exact(&board);
}

#[test]
fn a_short_pool_takes_all_its_cells() {
    let mut board = Board::new(&ring(4)).unwrap();
    let mut s = session_at(&board, 20);
    assert_eq!(candidate_cells(&board, 0), vec![2]);
    place_mines(&mut board, 0, &mut s, &vec![2]);
    assert_eq!(s.total_mines, 2);
    assert_eq!(mines_of(&board), vec![2]);
}

#[test]
fn placement_keeps_states_and_flags() {
    let mut board = Board::new(&ring(10)).unwrap();
    let mut s = session_at(&board, 1);
    board.toggle_flag(&mut s, 5);
    place_mines(&mut board, 0, &mut s, &vec![5, 2, 3, 4, 6, 7, 8]);
    assert_eq!(s.flags_placed, 1);
    assert_eq!(s.cells_revealed, 0);
    assert_eq!(s.level, 1);
    assert!(board.is_in_step(&s));
    assert_eq!(count_mine_neighbors(&board, 4), 1);
    assert_eq!(count_mine_neighbors(&board, 5), 0);
}

#[test]
fn random_placement_keeps_the_safe_zone_free() {
    let p = generate_goldberg_polyhedron(2);
    for anchor in [0usize, 11, 12, 100, 161] {
        let mut board = Board::new(&p.adjacency).unwrap();
        let mut s = session_at(&board, 1);
        initialize_mines(&mut board, anchor, &mut s);
        assert!(board.mines_placed());
        assert_eq!(s.total_mines, 24);
        assert_eq!(mines_of(&board).len(), 24);
        assert!(!board.cells()[anchor].is_mine);
        assert_eq!(board.cells()[anchor].adjacent_mines, 0);
        for &n in &board.cells()[anchor].neighbor_ids {
            assert!(!board.cells()[n].is_mine);
        }
        assert_counts_exact(&board);
        assert!(board.is_in_step(&s));
    }
}

#[test]
fn random_placement_is_shuffled() {
    let p = generate_goldberg_polyhedron(2);
    let mut layouts: Vec<Vec<usize>> = Vec::new();
    let mut unshuffled = 0;
    for _ in 0..8 {
        let mut board = Board::new(&p.adjacency).unwrap();
        let mut s = session_at(&board, 1);
        let pool = candidate_cells(&board, 0);
        initialize_mines(&mut board, 0, &mut s);
        let mines = mines_of(&board);
        if mines == pool[..24].to_vec() {
            unshuffled += 1;
        }
        layouts.push(mines);
    }
    assert!(unshuffled < 8);
    layouts.sort();
    layouts.dedup();
    assert!(layouts.len() > 1);
}

#[test]
fn full_dodecahedron_takes_six_mines_at_the_cap() {
    let p = generate_goldberg_polyhedron(0);
    let mut board = Board::new(&p.adjacency).unwrap();
    let mut s = session_at(&board, 13);
    initialize_mines(&mut board, 0, &mut s);
    assert_eq!(s.total_mines, 6);
    let mut expected = candidate_cells(&board, 0);
    expected.sort();
    assert_eq!(mines_of(&board), expected);
    assert_eq!(expected.len(), 6);
}

#[test]
fn shuffled_pool_is_recognised() {
    let board = Board::new(&ring(10)).unwrap();
    assert!(is_shuffled_pool(&board, 0, &vec![2, 3, 4, 5, 6, 7, 8]));
    assert!(is_shuffled_pool(&board, 0, &vec![8, 2, 4, 6, 7, 3, 5]));
    assert!(!is_shuffled_pool(&board, 0, &vec![8, 2, 4, 6, 7, 3]));
    assert!(!is_shuffled_pool(&board, 0, &vec![8, 2, 4, 6, 7, 3, 3]));
    assert!(!is_shuffled_pool(&board, 0, &vec![8, 2, 4, 6, 7, 3, 1]));
    assert!(!is_shuffled_pool(&board, 0, &vec![8, 2, 4, 6, 7, 3, 0]));
    assert!(!is_shuffled_pool(&board, 0, &vec![8, 2, 4, 6, 7, 3, 10]));
    assert!(!is_shuffled_pool(&board, 0, &vec![8, 2, 4, 6, 7, 3, 5, 5]));
    assert!(!is_shuffled_pool(&board, 0, &vec![]));
    let tiny = Board::new(&ring(3)).unwrap();
    assert!(is_shuffled_pool(&tiny, 1, &vec![]));
    assert!(!is_shuffled_pool(&tiny, 1, &vec![0]));
}
