//! The session: level, counters and the difficulty model derived from them.

use vstd::prelude::*;

verus! {

/// Share of the cells that hold a mine on the first level, in percent.
pub const BASE_MINE_PERCENTAGE: u64 = 15;

/// Growth of the mine share with each further level, in percent of the cells.
pub const MINE_PERCENTAGE_STEP: u64 = 3;

/// Upper bound of the mine share, in percent.
pub const MAX_MINE_PERCENTAGE: u64 = 50;

/// The screens of the game.
#[derive(Debug, Clone, Copy, PartialEq, Eq, Hash, Structural)]
pub enum AppState {
    Loading,
    MainMenu,
    Playing,
    GameOver,
    Victory,
}

impl Default for AppState {
    fn default() -> (s: Self)
        ensures
            s == AppState::Loading,
    {
        AppState::Loading
    }
}

/// Player preferences.
#[derive(Debug, Clone, Copy, PartialEq, Eq, Structural)]
pub struct GameSettings {
    pub invert_y: bool,
}

impl Default for GameSettings {
    fn default() -> (s: Self)
        ensures
            !s.invert_y,
    {
        GameSettings { invert_y: false }
    }
}

/// State that lives across levels (`level`, `max_level`) and the counters of
/// the level being played. `start_time` is the moment of the level's first
/// click in milliseconds of the host's clock.
#[derive(Debug, Clone, Copy, PartialEq, Eq)]
pub struct GameSession {
    pub level: u32,
    pub max_level: u32,
    pub is_first_click: bool,
    pub total_mines: usize,
    pub flags_placed: usize,
    pub cells_revealed: usize,
    pub total_cells: usize,
    pub start_time: Option<u64>,
}

/// The mine share of a level in percent: 15 on level 1, three more with each
/// level, never above 50.
pub open spec fn mine_percentage(level: u32) -> int {
    let grown = BASE_MINE_PERCENTAGE as int + MINE_PERCENTAGE_STEP as int * (level as int - 1);
    if grown <= MAX_MINE_PERCENTAGE as int {
        grown
    } else {
        MAX_MINE_PERCENTAGE as int
    }
}

/// The number of mines on a board of `total_cells` cells at `level`: the
/// mine share of the cells, rounded down.
pub open spec fn mine_count_spec(total_cells: usize, level: u32) -> int {
    (total_cells as int * mine_percentage(level)) / 100
}

/// Whether the counters say that every cell without a mine is revealed.
pub open spec fn victory_reached(s: GameSession) -> bool {
    s.total_mines > 0 && s.cells_revealed as int >= s.total_cells as int - s.total_mines as int
}

/// The session at the start of a level with `total_cells` cells: the level
/// and the highest level stay, every counter of the level starts again.
pub open spec fn level_started(s: GameSession, total_cells: usize) -> GameSession {
    GameSession {
        level: s.level,
        max_level: s.max_level,
        is_first_click: true,
        total_mines: 0,
        flags_placed: 0,
        cells_revealed: 0,
        total_cells,
        start_time: None,
    }
}

/// The number of subdivision rounds of the polyhedron played at `level`.
pub open spec fn subdivisions_spec(level: u32) -> nat {
    if level < 3 {
        2
    } else if level < 6 {
        3
    } else {
        4
    }
}

impl Default for GameSession {
    fn default() -> (s: Self)
        ensures
            s == (GameSession {
                level: 1,
                max_level: 1,
                is_first_click: true,
                total_mines: 0,
                flags_placed: 0,
                cells_revealed: 0,
                total_cells: 0,
                start_time: None,
            }),
    {
        GameSession {
            level: 1,
            max_level: 1,
            is_first_click: true,
            total_mines: 0,
            flags_placed: 0,
            cells_revealed: 0,
            total_cells: 0,
            start_time: None,
        }
    }
}

/// Computes the number of mines for a board of `total_cells` cells at `level`.
pub fn mine_count(total_cells: usize, level: u32) -> (count: usize)
    ensures
        count == mine_count_spec(total_cells, level),
        2 * count <= total_cells,
{
    let percent: u64 = if level >= 13 {
        MAX_MINE_PERCENTAGE
    } else if level == 0 {
        BASE_MINE_PERCENTAGE - MINE_PERCENTAGE_STEP
    } else {
        BASE_MINE_PERCENTAGE + MINE_PERCENTAGE_STEP * (level as u64 - 1)
    };
    assert(percent as int == mine_percentage(level));
    assert(0 <= total_cells as int * percent as int <= total_cells as int * 50) by (nonlinear_arith)
        requires
            0 <= percent <= 50,
            0 <= total_cells,
    ;
    let scaled: u128 = (total_cells as u128) * (percent as u128) / 100;
    scaled as usize
}

/// Reports victory: `Some(AppState::Victory)` exactly when mines have been
/// placed and the revealed cells are at least the cells without a mine.
pub fn check_win_condition(session: &GameSession) -> (next: Option<AppState>)
    ensures
        victory_reached(*session) ==> next == Some(AppState::Victory),
        !victory_reached(*session) ==> next.is_none(),
{
    if session.total_mines > 0 && (session.total_mines >= session.total_cells
        || session.cells_revealed >= session.total_cells - session.total_mines) {
        Some(AppState::Victory)
    } else {
        None
    }
}

/// Raises `max_level` to `level` where the player has reached a new level.
pub fn update_max_level(session: &mut GameSession)
    ensures
        final(session).max_level == if old(session).level > old(session).max_level {
            old(session).level
        } else {
            old(session).max_level
        },
        *final(session) == (GameSession { max_level: final(session).max_level, ..*old(session) }),
{
    if session.level > session.max_level {
        session.max_level = session.level;
    }
}

/// The number of subdivision rounds of the polyhedron played at `level`:
/// two below level 3, three below level 6, four from there on.
pub fn subdivisions_for_level(level: u32) -> (rounds: usize)
    ensures
        rounds == subdivisions_spec(level),
{
    if level < 3 {
        2
    } else if level < 6 {
        3
    } else {
        4
    }
}

impl GameSession {
    /// Starts a level on a board of `total_cells` cells.
    pub fn start_level(&mut self, total_cells: usize)
        ensures
            *final(self) == level_started(*old(self), total_cells),
    {
        self.is_first_click = true;
        self.flags_placed = 0;
        self.cells_revealed = 0;
        self.start_time = None;
        self.total_mines = 0;
        self.total_cells = total_cells;
    }
}

} // verus!
