//! What a click on a cell or on a menu button does to the game.

use crate::board::{
    flag_toggled,
    flags_after_toggle,
    in_step,
    Board,
    Cell,
    CellState,
};
use crate::engine::{ChordCell, RevealCell};
use crate::mines::all_ids;
use crate::session::{AppState, GameSession};
use vstd::prelude::*;

verus! {

/// The button of a pointer click.
#[derive(Debug, Clone, Copy, PartialEq, Eq, Hash, Structural)]
pub enum PointerButton {
    Primary,
    Secondary,
    Middle,
}

/// The buttons of the menu.
#[derive(Debug, Clone, Copy, PartialEq, Eq, Hash, Structural)]
pub enum MenuButton {
    Restart,
    PrevLevel,
    NextLevel,
}

/// What a click asks the engine to do at the next tick.
#[derive(Debug, Clone, Copy, PartialEq, Eq)]
pub enum CellRequest {
    Reveal(RevealCell),
    Chord(ChordCell),
}

/// The request that a click makes: the primary button asks to reveal a
/// hidden cell and to chord on a revealed one; nothing else asks for
/// anything.
pub open spec fn click_request(cells: Seq<Cell>, target: usize, button: PointerButton) -> Option<
    CellRequest,
> {
    if button == PointerButton::Primary && target < cells.len() {
        if cells[target as int].state == CellState::Hidden {
            Some(CellRequest::Reveal(RevealCell(target)))
        } else if cells[target as int].state == CellState::Revealed {
            Some(CellRequest::Chord(ChordCell(target)))
        } else {
            None
        }
    } else {
        None
    }
}

/// The cells after a click: the secondary button toggles the flag of the
/// cell, no other button changes a cell.
pub open spec fn cells_after_click(cells: Seq<Cell>, target: usize, button: PointerButton) -> Seq<
    Cell,
> {
    if button == PointerButton::Secondary {
        flag_toggled(cells, target)
    } else {
        cells
    }
}

/// The session after a click at time `now`: the first reveal request of a
/// level starts its clock, and a flag toggle moves the flag counter.
pub open spec fn session_after_click(
    cells: Seq<Cell>,
    s: GameSession,
    target: usize,
    button: PointerButton,
    now: u64,
) -> GameSession {
    if button == PointerButton::Primary {
        if target < cells.len() && cells[target as int].state == CellState::Hidden
            && s.is_first_click {
            GameSession { is_first_click: false, start_time: Some(now), ..s }
        } else {
            s
        }
    } else if button == PointerButton::Secondary {
        GameSession {
            flags_placed: flags_after_toggle(cells, s.flags_placed as int, target) as usize,
            ..s
        }
    } else {
        s
    }
}

/// The level after a press of a menu button in screen `state`.
pub open spec fn level_after_press(s: GameSession, state: AppState, pressed: MenuButton) -> int {
    match pressed {
        MenuButton::Restart => if state == AppState::Victory {
            s.level + 1
        } else {
            s.level as int
        },
        MenuButton::PrevLevel => if s.level > 1 {
            s.level - 1
        } else {
            s.level as int
        },
        MenuButton::NextLevel => if s.level < s.max_level {
            s.level + 1
        } else {
            s.level as int
        },
    }
}

/// The predicate "this id is a mine of `cells` that is not revealed".
pub open spec fn is_unrevealed_mine(cells: Seq<Cell>) -> spec_fn(usize) -> bool {
    |id: usize|
        id < cells.len() && cells[id as int].is_mine && cells[id as int].state
            != CellState::Revealed
}

/// The mines that are not revealed, in id order.
pub open spec fn unrevealed_mines(cells: Seq<Cell>) -> Seq<usize> {
    all_ids(cells.len()).filter(is_unrevealed_mine(cells))
}

/// Handles a click on cell `target` at time `now`, in milliseconds.
///
/// The primary button on a hidden cell asks for a reveal, and the first such
/// click of a level starts the clock; on a revealed cell it asks for a
/// chord. The secondary button toggles the flag of the cell. A click on a
/// cell that the board does not have is passed over.
pub fn on_cell_click(
    board: &mut Board,
    session: &mut GameSession,
    target: usize,
    button: PointerButton,
    now: u64,
) -> (request: Option<CellRequest>)
    requires
        old(board).wf(),
        in_step(old(board)@, *old(session)),
    ensures
        request == click_request(old(board)@, target, button),
        final(board)@ == cells_after_click(old(board)@, target, button),
        final(board).placed() == old(board).placed(),
        *final(session) == session_after_click(old(board)@, *old(session), target, button, now),
        final(board).wf(),
        in_step(final(board)@, *final(session)),
{
    match button {
        PointerButton::Primary => {
            let state = match board.cell(target) {
                Some(cell) => cell.state,
                None => {
                    return None;
                },
            };
            if state == CellState::Hidden {
                if session.is_first_click {
                    session.is_first_click = false;
                    session.start_time = Some(now);
                }
                Some(CellRequest::Reveal(RevealCell(target)))
            } else if state == CellState::Revealed {
                Some(CellRequest::Chord(ChordCell(target)))
            } else {
                None
            }
        },
        PointerButton::Secondary => {
            board.toggle_flag(session, target);
            None
        },
        PointerButton::Middle => None,
    }
}

/// Handles a press of a menu button in screen `state`.
///
/// The restart button starts play, on the next level after a victory. The
/// level buttons move the level down to 1 and up to the highest level
/// reached. Returns the screen to go to, if any.
pub fn menu_interaction(session: &mut GameSession, state: AppState, pressed: MenuButton) -> (next:
    Option<AppState>)
    requires
        pressed == MenuButton::Restart && state == AppState::Victory ==> old(session).level
            < u32::MAX,
    ensures
        final(session).level == level_after_press(*old(session), state, pressed),
        *final(session) == (GameSession { level: final(session).level, ..*old(session) }),
        next == if pressed == MenuButton::Restart {
            Some(AppState::Playing)
        } else {
            None
        },
{
    match pressed {
        MenuButton::Restart => {
            if state == AppState::Victory {
                session.level += 1;
            }
            Some(AppState::Playing)
        },
        MenuButton::PrevLevel => {
            if session.level > 1 {
                session.level -= 1;
            }
            None
        },
        MenuButton::NextLevel => {
            if session.level < session.max_level {
                session.level += 1;
            }
            None
        },
    }
}

/// Lists the mines that are not revealed, for display after a lost game.
pub fn reveal_all_mines(board: &Board) -> (mines: Vec<usize>)
    ensures
        mines@ == unrevealed_mines(board@),
{
    let cells = board.cells();
    let ghost ids = all_ids(cells@.len());
    let ghost pred = is_unrevealed_mine(cells@);
    let mut mines: Vec<usize> = Vec::new();
    let mut i: usize = 0;
    proof {
        reveal(Seq::filter);
        assert(ids.take(0).filter(pred) =~= Seq::<usize>::empty());
    }
    while i < cells.len()
        invariant
            i <= cells.len(),
            cells@ == board@,
            ids == all_ids(cells@.len()),
            pred == is_unrevealed_mine(cells@),
            mines@ == ids.take(i as int).filter(pred),
        decreases cells.len() - i,
    {
        proof {
            assert(ids.take(i + 1) =~= ids.take(i as int).push(i));
            ids.take(i as int).lemma_filter_push(i, pred);
        }
        if cells[i].is_mine && cells[i].state != CellState::Revealed {
            mines.push(i);
        }
        i += 1;
    }
    assert(ids.take(cells.len() as int) =~= ids);
    mines
}

} // verus!
