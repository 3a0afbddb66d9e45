use sphere_sweeper::session::{
    check_win_condition, mine_count, subdivisions_for_level, update_max_level, AppState,
    GameSession, GameSettings, BASE_MINE_PERCENTAGE, MAX_MINE_PERCENTAGE,
};

fn session(total_cells: usize, total_mines: usize, cells_revealed: usize) -> GameSession {
    GameSession {
        total_cells,
        total_mines,
        cells_revealed,
        ..GameSession::default()
    }
}

#[test]
fn default_session_starts_at_level_one() {
    let s = GameSession::default();
    assert_eq!(s.level, 1);
    assert_eq!(s.max_level, 1);
    assert!(s.is_first_click);
    assert_eq!(s.total_mines, 0);
    assert_eq!(s.flags_placed, 0);
    assert_eq!(s.cells_revealed, 0);
    assert_eq!(s.total_cells, 0);
    assert_eq!(s.start_time, None);
}

#[test]
fn default_state_and_settings() {
    assert_eq!(AppState::default(), AppState::Loading);
    assert!(!GameSettings::default().invert_y);
    assert_eq!(BASE_MINE_PERCENTAGE, 15);
    assert_eq!(MAX_MINE_PERCENTAGE, 50);
}

#[test]
fn forty_two_cells_at_level_one_hold_six_mines() {
    assert_eq!(mine_count(42, 1), 6);
}

#[test]
fn mine_count_follows_the_level() {
    assert_eq!(mine_count(162, 1), 24);
    assert_eq!(mine_count(162, 2), 29);
    assert_eq!(mine_count(642, 3), 134);
    assert_eq!(mine_count(642, 5), 173);
    assert_eq!(mine_count(2562, 6), 768);
    assert_eq!(mine_count(100, 1), 15);
    assert_eq!(mine_count(100, 2), 18);
    assert_eq!(mine_count(0, 1), 0);
    assert_eq!(mine_count(6, 1), 0);
    assert_eq!(mine_count(7, 1), 1);
}

#[test]
fn mine_count_is_capped_at_half_the_cells() {
    assert_eq!(mine_count(100, 12), 48);
    assert_eq!(mine_count(100, 13), 50);
    assert_eq!(mine_count(100, 14), 50);
    assert_eq!(mine_count(2562, 1000), 1281);
    assert_eq!(mine_count(13, u32::MAX), 6);
    assert_eq!(mine_count(usize::MAX, u32::MAX), usize::MAX / 2);
}

#[test]
fn win_needs_mines_placed() {
    assert_eq!(check_win_condition(&session(42, 0, 42)), None);
    assert_eq!(check_win_condition(&session(0, 0, 0)), None);
}

#[test]
fn win_is_reported_when_all_safe_cells_are_revealed() {
    assert_eq!(check_win_condition(&session(42, 6, 35)), None);
    assert_eq!(check_win_condition(&session(42, 6, 36)), Some(AppState::Victory));
    assert_eq!(check_win_condition(&session(42, 6, 37)), Some(AppState::Victory));
    assert_eq!(check_win_condition(&session(42, 6, 0)), None);
}

#[test]
fn win_with_all_cells_but_one_mined() {
    assert_eq!(check_win_condition(&session(10, 9, 0)), None);
    assert_eq!(check_win_condition(&session(10, 9, 1)), Some(AppState::Victory));
}

#[test]
fn win_check_survives_more_mines_than_cells() {
    assert_eq!(check_win_condition(&session(3, 5, 0)), Some(AppState::Victory));
}

#[test]
fn win_iff_revealed_equals_safe_cells_on_reachable_counters() {
    for total_cells in 1..40usize {
        for total_mines in 1..total_cells {
            for cells_revealed in 0..=(total_cells - total_mines) {
                let won = check_win_condition(&session(total_cells, total_mines, cells_revealed));
                assert_eq!(won.is_some(), cells_revealed == total_cells - total_mines);
            }
        }
    }
}

#[test]
fn max_level_follows_the_level_upwards_only() {
    let mut s = GameSession { level: 4, max_level: 2, ..GameSession::default() };
    update_max_level(&mut s);
    assert_eq!(s.max_level, 4);
    assert_eq!(s.level, 4);
    let mut s = GameSession { level: 2, max_level: 5, ..GameSession::default() };
    update_max_level(&mut s);
    assert_eq!(s.max_level, 5);
    assert_eq!(s.level, 2);
}

#[test]
fn subdivisions_grow_with_the_level() {
    assert_eq!(subdivisions_for_level(0), 2);
    assert_eq!(subdivisions_for_level(1), 2);
    assert_eq!(subdivisions_for_level(2), 2);
    assert_eq!(subdivisions_for_level(3), 3);
    assert_eq!(subdivisions_for_level(5), 3);
    assert_eq!(subdivisions_for_level(6), 4);
    assert_eq!(subdivisions_for_level(u32::MAX), 4);
}

#[test]
fn start_level_resets_the_counters_and_keeps_the_levels() {
    let mut s = GameSession {
        level: 3,
        max_level: 7,
        is_first_click: false,
        total_mines: 9,
        flags_placed: 4,
        cells_revealed: 11,
        total_cells: 42,
        start_time: Some(1234),
    };
    s.start_level(162);
    assert_eq!(
        s,
        GameSession {
            level: 3,
            max_level: 7,
            is_first_click: true,
            total_mines: 0,
            flags_placed: 0,
            cells_revealed: 0,
            total_cells: 162,
            start_time: None,
        }
    );
}
