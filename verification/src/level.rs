//! The start of a level: a fresh polyhedron and a fresh board.

use crate::board::{in_step, is_fresh_cell, lemma_all_hidden_counts, Board, CellState};
use crate::goldberg::cell_count;
use crate::session::{level_started, subdivisions_for_level, subdivisions_spec, GameSession};
use crate::topology::{generate_goldberg_polyhedron, is_geodesic, Polyhedron};
use vstd::prelude::*;

verus! {

/// Starts the level of the session: generates the polyhedron of the level
/// and builds its board.
///
/// The counters of the session start again, with the number of cells of the
/// new polyhedron. The board has one cell for each vertex of the polyhedron,
/// with that vertex's neighbours; every cell is hidden and no mines are
/// placed.
pub fn spawn_board(session: &mut GameSession) -> (made: (Polyhedron, Board))
    ensures
        *final(session) == level_started(
            *old(session),
            cell_count(subdivisions_spec(old(session).level)) as usize,
        ),
        is_geodesic(made.0, subdivisions_spec(old(session).level)),
        made.1.wf(),
        !made.1.placed(),
        made.1@.len() == cell_count(subdivisions_spec(old(session).level)),
        made.1@.len() == made.0.adjacency@.len(),
        forall|i: int|
            0 <= i < made.1@.len() ==> is_fresh_cell(
                #[trigger] made.1@[i],
                i,
                made.0.adjacency@[i]@,
            ),
        in_step(made.1@, *final(session)),
{
    let subdivisions = subdivisions_for_level(session.level);
    let polyhedron = generate_goldberg_polyhedron(subdivisions);
    session.start_level(polyhedron.adjacency.len());
    let board = Board::new(&polyhedron.adjacency).unwrap();
    proof {
        assert forall|i: int| 0 <= i < board@.len() implies (#[trigger] board@[i]).state
            == CellState::Hidden by {
            assert(is_fresh_cell(board@[i], i, polyhedron.adjacency@[i]@));
        }
        lemma_all_hidden_counts(board@);
    }
    (polyhedron, board)
}

} // verus!
