//! Laws of the game, proved from the contracts of the operations.

use crate::board::{
    cells_wf,
    flag_toggled,
    flags_after_toggle,
    in_step,
    lemma_revealed_and_mines,
    mine_neighbors,
    mine_total,
    same_mines,
    Cell,
    CellState,
};
use crate::engine::{
    chord_applies,
    chord_targets,
    hidden_neighbors,
    in_state_at,
    is_hidden,
    is_sweep_path,
    lemma_sweep_extends,
    lemma_target_swept,
    spreads,
    sweep_result,
    swept,
};
use crate::session::{victory_reached, GameSession};
use vstd::prelude::*;

verus! {

/// `x` belongs to the region of `start`: a sweep path leads from `start` to
/// `x`, and `x` itself has no mine among its neighbours and is none.
pub open spec fn in_zero_region(cells: Seq<Cell>, start: usize, x: usize) -> bool {
    exists|path: Seq<usize>|
        #[trigger] is_sweep_path(cells, path) && path[0] == start && path.last() == x && spreads(
            cells[x as int],
        )
}

/// `y` lies on the rim of the region of `start`: it is a hidden neighbour of
/// a cell of the region.
pub open spec fn on_region_rim(cells: Seq<Cell>, start: usize, y: usize) -> bool {
    is_hidden(cells, y as int) && exists|x: usize| #[trigger]
        in_zero_region(cells, start, x) && cells[x as int].neighbor_ids@.contains(y)
}

/// A reveal is a no-op on a cell that is not hidden, and so is a second
/// reveal of the same cell: the cells stay as they are, and with them the
/// count of revealed cells.
pub proof fn lemma_reveal_of_revealed_is_noop(
    a: Seq<Cell>,
    b: Seq<Cell>,
    c: Seq<Cell>,
    id: usize,
    sa: GameSession,
    sb: GameSession,
    sc: GameSession,
)
    requires
        !is_hidden(a, id as int),
        sweep_result(a, b, seq![id]),
        sweep_result(b, c, seq![id]),
        in_step(a, sa),
        in_step(b, sb),
        in_step(c, sc),
    ensures
        b == a,
        c == a,
        sb.cells_revealed == sa.cells_revealed,
        sc.cells_revealed == sa.cells_revealed,
{
    lemma_sweep_of_unhidden(a, b, id);
    lemma_sweep_of_unhidden(b, c, id);
}

/// The reveal of a single target that is no hidden cell changes nothing.
pub proof fn lemma_sweep_of_unhidden(a: Seq<Cell>, b: Seq<Cell>, id: usize)
    requires
        !is_hidden(a, id as int),
        sweep_result(a, b, seq![id]),
    ensures
        b == a,
{
    let t = seq![id];
    assert forall|i: int| 0 <= i < a.len() implies a[i] == b[i] by {
        if swept(a, t, i as usize) {
            let path = choose|path: Seq<usize>|
                #[trigger] is_sweep_path(a, path) && t.contains(path[0]) && path.last()
                    == i as usize;
            assert(is_hidden(a, path[0] as int));
            let w = choose|w: int| 0 <= w < t.len() && t[w] == path[0];
            assert(false);
        }
        assert(a[i].is_mine == b[i].is_mine);
    }
    assert(b =~= a);
}

/// Flagging a hidden cell and taking the flag off again restores the cell
/// and the flag counter.
pub proof fn lemma_flag_round_trip(cells: Seq<Cell>, flags: int, id: usize)
    requires
        id < cells.len(),
        cells[id as int].state == CellState::Hidden,
    ensures
        flag_toggled(cells, id)[id as int].state == CellState::Flagged,
        flags_after_toggle(cells, flags, id) == flags + 1,
        flag_toggled(flag_toggled(cells, id), id) == cells,
        flags_after_toggle(flag_toggled(cells, id), flags_after_toggle(cells, flags, id), id)
            == flags,
{
    assert(flag_toggled(flag_toggled(cells, id), id) =~= cells);
}

/// A chord that takes effect reveals every hidden neighbour of the cell.
pub proof fn lemma_chord_reveals_hidden_neighbors(before: Seq<Cell>, after: Seq<Cell>, id: usize)
    requires
        cells_wf(before, true),
        chord_applies(before, id),
        sweep_result(before, after, chord_targets(before, id)),
    ensures
        forall|k: int|
            0 <= k < before[id as int].neighbor_ids@.len() && is_hidden(
                before,
                #[trigger] before[id as int].neighbor_ids@[k] as int,
            ) ==> after[before[id as int].neighbor_ids@[k] as int].state == CellState::Revealed,
{
    let list = before[id as int].neighbor_ids@;
    let targets = chord_targets(before, id);
    assert forall|k: int| 0 <= k < list.len() && is_hidden(before, #[trigger] list[k] as int) implies
        after[list[k] as int].state == CellState::Revealed by {
        let y = list[k];
        list.lemma_filter_contains(in_state_at(before, CellState::Hidden), k);
        assert(targets == hidden_neighbors(before, id as int));
        let w = choose|w: int| 0 <= w < targets.len() && targets[w] == y;
        lemma_target_swept(before, targets, w);
    }
}

/// A chord that does not take effect changes nothing: on a cell that is
/// not revealed, or whose flagged neighbours are not as many as its
/// adjacent mines.
pub proof fn lemma_chord_mismatch_changes_nothing(before: Seq<Cell>, after: Seq<Cell>, id: usize)
    requires
        !chord_applies(before, id),
        sweep_result(before, after, chord_targets(before, id)),
    ensures
        after == before,
{
    let t = chord_targets(before, id);
    assert forall|i: int| 0 <= i < before.len() implies before[i] == after[i] by {
        if swept(before, t, i as usize) {
            let path = choose|path: Seq<usize>|
                #[trigger] is_sweep_path(before, path) && t.contains(path[0]) && path.last()
                    == i as usize;
            let w = choose|w: int| 0 <= w < t.len() && t[w] == path[0];
            assert(false);
        }
        assert(before[i].is_mine == after[i].is_mine);
    }
    assert(after =~= before);
}

/// The reveal of a hidden cell without adjacent mines reveals its whole
/// region and the rim of the region, and nothing else: it goes through
/// every hidden cell without adjacent mines that it reaches and stops at
/// the cells that have some.
pub proof fn lemma_flood_fill(before: Seq<Cell>, after: Seq<Cell>, start: usize)
    requires
        before.len() <= usize::MAX,
        is_hidden(before, start as int),
        spreads(before[start as int]),
        sweep_result(before, after, seq![start]),
    ensures
        forall|y: int|
            0 <= y < before.len() ==> (#[trigger] after[y]).state == if in_zero_region(
                before,
                start,
                y as usize,
            ) || on_region_rim(before, start, y as usize) {
                CellState::Revealed
            } else {
                before[y].state
            },
{
    let t = seq![start];
    assert forall|y: int| 0 <= y < before.len() implies (#[trigger] after[y]).state
        == if in_zero_region(before, start, y as usize) || on_region_rim(
        before,
        start,
        y as usize,
    ) {
        CellState::Revealed
    } else {
        before[y].state
    } by {
        let yy = y as usize;
        if swept(before, t, yy) {
            let path = choose|path: Seq<usize>|
                #[trigger] is_sweep_path(before, path) && t.contains(path[0]) && path.last() == yy;
            let w = choose|w: int| 0 <= w < t.len() && t[w] == path[0];
            assert(path[0] == start);
            if path.len() == 1 {
                assert(in_zero_region(before, start, yy));
            } else {
                let head = path.drop_last();
                let x = path[path.len() - 2];
                assert forall|k: int| 0 <= k < head.len() implies is_hidden(
                    before,
                    #[trigger] head[k] as int,
                ) by {
                    assert(is_hidden(before, path[k] as int));
                }
                assert forall|k: int| 0 <= k < head.len() - 1 implies spreads(
                    before[(#[trigger] head[k]) as int],
                ) && before[head[k] as int].neighbor_ids@.contains(head[k + 1]) by {
                    assert(spreads(before[path[k] as int]));
                    assert(head[k + 1] == path[k + 1]);
                }
                assert(is_sweep_path(before, head));
                assert(head[0] == start && head.last() == x);
                assert(spreads(before[path[path.len() - 2] as int]) && before[x as int].neighbor_ids@.contains(
                    path[path.len() - 2 + 1],
                ));
                assert(in_zero_region(before, start, x));
                assert(is_hidden(before, path[path.len() - 1] as int));
                assert(on_region_rim(before, start, yy));
            }
        }
        if in_zero_region(before, start, yy) {
            let path = choose|path: Seq<usize>|
                #[trigger] is_sweep_path(before, path) && path[0] == start && path.last() == yy
                    && spreads(before[yy as int]);
            assert(t[0] == path[0]);
            assert(swept(before, t, yy));
        }
        if on_region_rim(before, start, yy) {
            let x = choose|x: usize| #[trigger]
                in_zero_region(before, start, x) && before[x as int].neighbor_ids@.contains(yy);
            let path = choose|path: Seq<usize>|
                #[trigger] is_sweep_path(before, path) && path[0] == start && path.last() == x
                    && spreads(before[x as int]);
            assert(t[0] == path[0]);
            assert(swept(before, t, x));
            lemma_sweep_extends(before, t, x, yy);
        }
    }
}

/// As long as no mine is revealed and the session counts the mines of the
/// board, victory is reported exactly when the revealed cells are all the
/// cells without a mine; that holds too where all cells but one are mines.
pub proof fn lemma_victory_iff_all_safe_cells_revealed(cells: Seq<Cell>, s: GameSession)
    requires
        in_step(cells, s),
        s.total_mines == mine_total(cells),
        s.total_mines > 0,
        forall|i: int|
            0 <= i < cells.len() && (#[trigger] cells[i]).is_mine ==> cells[i].state
                != CellState::Revealed,
    ensures
        s.cells_revealed <= s.total_cells - s.total_mines,
        victory_reached(s) <==> s.cells_revealed == s.total_cells - s.total_mines,
{
    lemma_revealed_and_mines(cells);
}

/// On counters alone: with mines placed and no more cells revealed than
/// there are cells without a mine, victory is reported exactly when the
/// two numbers are equal.
pub proof fn lemma_victory_iff(s: GameSession)
    requires
        s.total_mines > 0,
        s.cells_revealed <= s.total_cells - s.total_mines,
    ensures
        victory_reached(s) <==> s.cells_revealed == s.total_cells - s.total_mines,
{
}

/// On a well-formed board every cell without a mine carries the exact
/// number of its neighbours that are mines.
pub proof fn lemma_adjacent_counts_exact(cells: Seq<Cell>, placed: bool, i: int)
    requires
        cells_wf(cells, placed),
        0 <= i < cells.len(),
        !cells[i].is_mine,
    ensures
        cells[i].adjacent_mines == mine_neighbors(cells, i),
{
}

/// A flag toggle changes at most the state of its cell, from hidden to
/// flagged or from flagged to hidden: a revealed cell stays revealed, and
/// no cell gains or loses a mine.
pub proof fn lemma_toggle_transitions(cells: Seq<Cell>, id: usize)
    ensures
        same_mines(cells, flag_toggled(cells, id)),
        forall|i: int|
            0 <= i < cells.len() && (#[trigger] flag_toggled(cells, id)[i]).state
                != cells[i].state ==> i == id && ((cells[i].state == CellState::Hidden
                && flag_toggled(cells, id)[i].state == CellState::Flagged) || (cells[i].state
                == CellState::Flagged && flag_toggled(cells, id)[i].state == CellState::Hidden)),
{
}

} // verus!
