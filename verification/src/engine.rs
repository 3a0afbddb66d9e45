//! The reveal and chord engine: flood fill over cells without adjacent
//! mines, chording on revealed cells, and the drain of one tick's requests.

use crate::board::{
    cells_wf,
    count_state,
    in_step,
    lemma_count_state_bound,
    lemma_count_state_update,
    lemma_same_mines_wf,
    same_mines,
    with_state,
    Board,
    Cell,
    CellState,
};
use crate::mines::{
    candidate_pool,
    initialize_mines,
    is_shuffle_of,
    mines_placed_by,
    session_with_mines,
};
use crate::session::{mine_count_spec, AppState, GameSession};
use vstd::prelude::*;

verus! {

/// A revealed cell of this kind spreads the reveal to its neighbours: it is
/// no mine and no neighbour of it is one.
pub open spec fn spreads(c: Cell) -> bool {
    !c.is_mine && c.adjacent_mines == 0
}

/// `id` is a hidden cell of the board.
pub open spec fn is_hidden(cells: Seq<Cell>, id: int) -> bool {
    0 <= id < cells.len() && cells[id].state == CellState::Hidden
}

/// A path along which a reveal travels: hidden cells, each but the last a
/// spreading cell with the next one among its neighbours.
pub open spec fn is_sweep_path(cells: Seq<Cell>, path: Seq<usize>) -> bool {
    &&& path.len() > 0
    &&& forall|k: int| 0 <= k < path.len() ==> is_hidden(cells, #[trigger] path[k] as int)
    &&& forall|k: int|
        0 <= k < path.len() - 1 ==> spreads(cells[(#[trigger] path[k]) as int]) && cells[path[k] as int].neighbor_ids@.contains(
        path[k + 1])
}

/// A reveal of `targets` reaches `id`: a sweep path leads from one of the
/// targets to it.
pub open spec fn swept(cells: Seq<Cell>, targets: Seq<usize>, id: usize) -> bool {
    exists|path: Seq<usize>|
        #[trigger] is_sweep_path(cells, path) && targets.contains(path[0]) && path.last() == id
}

/// `after` is `before` once a reveal of `targets` has run to its end: the
/// cells that the reveal reaches are revealed, and nothing else has changed.
pub open spec fn sweep_result(before: Seq<Cell>, after: Seq<Cell>, targets: Seq<usize>) -> bool {
    &&& same_mines(before, after)
    &&& forall|i: int|
        0 <= i < after.len() ==> (#[trigger] after[i]).state == if swept(
            before,
            targets,
            i as usize,
        ) {
            CellState::Revealed
        } else {
            before[i].state
        }
}

/// A reveal of `targets` reaches a mine.
pub open spec fn mine_swept(cells: Seq<Cell>, targets: Seq<usize>) -> bool {
    exists|id: usize| #[trigger] swept(cells, targets, id) && cells[id as int].is_mine
}

// ---------------------------------------------------------------------------
// The invariant of the work queue
// ---------------------------------------------------------------------------

/// Cell `i` is as it was, or was hidden, is reached and is now revealed.
spec fn reveal_ok(c0: Seq<Cell>, c: Seq<Cell>, t: Seq<usize>, i: int) -> bool {
    c[i].state == c0[i].state || (c0[i].state == CellState::Hidden && c[i].state
        == CellState::Revealed && swept(c0, t, i as usize))
}

/// A queued id that was a hidden cell is reached.
spec fn queued_ok(c0: Seq<Cell>, t: Seq<usize>, y: usize) -> bool {
    is_hidden(c0, y as int) ==> swept(c0, t, y)
}

/// A cell that was hidden and must be revealed is revealed or waits in the
/// queue.
spec fn settled(c0: Seq<Cell>, c: Seq<Cell>, q: Seq<usize>, y: usize) -> bool {
    is_hidden(c0, y as int) ==> (c[y as int].state == CellState::Revealed || q.contains(y))
}

/// The first `upto` neighbours of `x` are settled, where `x` was revealed by
/// this run and spreads.
spec fn expanded_to(c0: Seq<Cell>, c: Seq<Cell>, q: Seq<usize>, x: int, upto: int) -> bool {
    (c0[x].state == CellState::Hidden && c[x].state == CellState::Revealed && spreads(c0[x]))
        ==> forall|k: int|
        0 <= k < upto && k < c0[x].neighbor_ids@.len() ==> settled(
            c0,
            c,
            q,
            #[trigger] c0[x].neighbor_ids@[k],
        )
}

/// How far cell `x` must be expanded: wholly, but for the cell `cur` that is
/// being expanded, which has reached neighbour `upto`.
spec fn due(c0: Seq<Cell>, x: int, cur: int, upto: int) -> int {
    if x == cur {
        upto
    } else {
        c0[x].neighbor_ids@.len() as int
    }
}

/// The invariant of the reveal loop, with `c0` the cells at the start, `c`
/// the cells now, `t` the targets and `q` the queue.
spec fn sweep_inv(
    c0: Seq<Cell>,
    c: Seq<Cell>,
    t: Seq<usize>,
    q: Seq<usize>,
    cur: int,
    upto: int,
) -> bool {
    &&& same_mines(c0, c)
    &&& forall|i: int| 0 <= i < c0.len() ==> #[trigger] reveal_ok(c0, c, t, i)
    &&& forall|j: int| 0 <= j < q.len() ==> queued_ok(c0, t, #[trigger] q[j])
    &&& forall|k: int| 0 <= k < t.len() ==> settled(c0, c, q, #[trigger] t[k])
    &&& forall|x: int| 0 <= x < c0.len() ==> #[trigger] expanded_to(c0, c, q, x, due(c0, x, cur, upto))
}

/// A mine among the cells revealed since `c0`.
spec fn hit_at(c0: Seq<Cell>, c: Seq<Cell>, x: int) -> bool {
    0 <= x < c0.len() && c0[x].state == CellState::Hidden && c[x].state == CellState::Revealed
        && c0[x].is_mine
}

/// Whether a mine has been revealed since `c0`.
spec fn hit_so_far(c0: Seq<Cell>, c: Seq<Cell>) -> bool {
    exists|x: int| hit_at(c0, c, x)
}

/// A hidden target is reached.
pub proof fn lemma_target_swept(cells: Seq<Cell>, targets: Seq<usize>, k: int)
    requires
        0 <= k < targets.len(),
        is_hidden(cells, targets[k] as int),
    ensures
        swept(cells, targets, targets[k]),
{
    let path = seq![targets[k]];
    assert(path[0] == targets[k]);
    assert(is_sweep_path(cells, path));
}

/// The reveal travels from a reached spreading cell to its hidden
/// neighbours.
pub proof fn lemma_sweep_extends(cells: Seq<Cell>, targets: Seq<usize>, x: usize, y: usize)
    requires
        swept(cells, targets, x),
        spreads(cells[x as int]),
        cells[x as int].neighbor_ids@.contains(y),
        is_hidden(cells, y as int),
    ensures
        swept(cells, targets, y),
{
    let path = choose|path: Seq<usize>|
        #[trigger] is_sweep_path(cells, path) && targets.contains(path[0]) && path.last() == x;
    let longer = path.push(y);
    assert forall|k: int| 0 <= k < longer.len() implies is_hidden(
        cells,
        #[trigger] longer[k] as int,
    ) by {
        if k < path.len() {
            assert(is_hidden(cells, path[k] as int));
        }
    }
    assert forall|k: int| 0 <= k < longer.len() - 1 implies spreads(
        cells[(#[trigger] longer[k]) as int],
    ) && cells[longer[k] as int].neighbor_ids@.contains(longer[k + 1]) by {
        if k < path.len() - 1 {
            assert(spreads(cells[path[k] as int]));
            assert(longer[k + 1] == path[k + 1]);
        }
    }
    assert(is_sweep_path(cells, longer));
    assert(longer[0] == path[0]);
}

/// A reached cell is a hidden cell of the board.
pub proof fn lemma_swept_is_hidden(cells: Seq<Cell>, targets: Seq<usize>, id: usize)
    requires
        swept(cells, targets, id),
    ensures
        is_hidden(cells, id as int),
{
    let path = choose|path: Seq<usize>|
        #[trigger] is_sweep_path(cells, path) && targets.contains(path[0]) && path.last() == id;
    assert(is_hidden(cells, path[path.len() - 1] as int));
}

/// At the start, with the targets as the queue, the invariant holds.
proof fn lemma_sweep_inv_init(c0: Seq<Cell>, t: Seq<usize>)
    ensures
        sweep_inv(c0, c0, t, t, -1, 0),
{
    assert forall|j: int| 0 <= j < t.len() implies queued_ok(c0, t, #[trigger] t[j]) by {
        if is_hidden(c0, t[j] as int) {
            lemma_target_swept(c0, t, j);
        }
    }
    assert forall|k: int| 0 <= k < t.len() implies settled(c0, c0, t, #[trigger] t[k]) by {}
}

/// An id leaves the queue that is no hidden cell: the invariant stays.
proof fn lemma_sweep_inv_skip(c0: Seq<Cell>, c: Seq<Cell>, t: Seq<usize>, q: Seq<usize>)
    requires
        sweep_inv(c0, c, t, q, -1, 0),
        q.len() > 0,
        !is_hidden(c, q.last() as int),
    ensures
        sweep_inv(c0, c, t, q.drop_last(), -1, 0),
{
    let q2 = q.drop_last();
    let id = q.last();
    assert forall|y: usize| settled(c0, c, q, y) implies settled(c0, c, q2, y) by {
        if is_hidden(c0, y as int) && c[y as int].state != CellState::Revealed {
            let w = choose|w: int| 0 <= w < q.len() && q[w] == y;
            if w == q.len() - 1 {
                assert(reveal_ok(c0, c, t, y as int));
            } else {
                assert(q2[w] == y);
            }
        }
    }
    assert forall|j: int| 0 <= j < q2.len() implies queued_ok(c0, t, #[trigger] q2[j]) by {
        assert(q2[j] == q[j]);
    }
    assert forall|x: int| 0 <= x < c0.len() implies #[trigger] expanded_to(
        c0,
        c,
        q2,
        x,
        due(c0, x, -1, 0),
    ) by {
        assert(expanded_to(c0, c, q, x, due(c0, x, -1, 0)));
    }
}

/// The hidden cell at the end of the queue is revealed: the invariant holds
/// with that cell not yet expanded.
proof fn lemma_sweep_inv_reveal(c0: Seq<Cell>, c: Seq<Cell>, t: Seq<usize>, q: Seq<usize>)
    requires
        sweep_inv(c0, c, t, q, -1, 0),
        q.len() > 0,
        is_hidden(c, q.last() as int),
    ensures
        sweep_inv(
            c0,
            with_state(c, q.last() as int, CellState::Revealed),
            t,
            q.drop_last(),
            q.last() as int,
            0,
        ),
        swept(c0, t, q.last()),
        c0[q.last() as int].state == CellState::Hidden,
{
    let q2 = q.drop_last();
    let id = q.last();
    let c2 = with_state(c, id as int, CellState::Revealed);
    assert(reveal_ok(c0, c, t, id as int));
    assert(queued_ok(c0, t, q[q.len() - 1]));
    assert forall|i: int| 0 <= i < c0.len() implies #[trigger] reveal_ok(c0, c2, t, i) by {
        assert(reveal_ok(c0, c, t, i));
    }
    assert forall|y: usize| settled(c0, c, q, y) implies settled(c0, c2, q2, y) by {
        if is_hidden(c0, y as int) && y != id && c[y as int].state != CellState::Revealed {
            let w = choose|w: int| 0 <= w < q.len() && q[w] == y;
            assert(q2[w] == y);
        }
    }
    assert forall|j: int| 0 <= j < q2.len() implies queued_ok(c0, t, #[trigger] q2[j]) by {
        assert(q2[j] == q[j]);
    }
    assert forall|x: int| 0 <= x < c0.len() implies #[trigger] expanded_to(
        c0,
        c2,
        q2,
        x,
        due(c0, x, id as int, 0),
    ) by {
        assert(expanded_to(c0, c, q, x, due(c0, x, -1, 0)));
        assert(reveal_ok(c0, c, t, x));
    }
    assert forall|i: int| 0 <= i < c0.len() implies (#[trigger] c0[i]).is_mine == c2[i].is_mine
        && c0[i].adjacent_mines == c2[i].adjacent_mines && c0[i].id == c2[i].id
        && c0[i].neighbor_ids == c2[i].neighbor_ids by {
        assert(c[i].id == c0[i].id);
    }
}

/// One more neighbour of the cell being expanded is looked at: where it is
/// hidden it joins the queue.
proof fn lemma_sweep_inv_push(
    c0: Seq<Cell>,
    c: Seq<Cell>,
    t: Seq<usize>,
    q: Seq<usize>,
    cur: int,
    upto: int,
)
    requires
        sweep_inv(c0, c, t, q, cur, upto),
        cells_wf(c0, true),
        0 <= cur < c0.len(),
        0 <= upto < c0[cur].neighbor_ids@.len(),
        swept(c0, t, cur as usize),
        spreads(c0[cur]),
        cur <= usize::MAX,
    ensures
        c0[cur].neighbor_ids@[upto] < c0.len(),
        is_hidden(c, c0[cur].neighbor_ids@[upto] as int) ==> sweep_inv(
            c0,
            c,
            t,
            q.push(c0[cur].neighbor_ids@[upto]),
            cur,
            upto + 1,
        ),
        !is_hidden(c, c0[cur].neighbor_ids@[upto] as int) ==> sweep_inv(c0, c, t, q, cur, upto + 1),
{
    let y = c0[cur].neighbor_ids@[upto];
    assert(crate::board::valid_neighbors(crate::board::neighbor_lists(c0), cur));
    assert(crate::board::valid_link(
        crate::board::neighbor_lists(c0),
        cur,
        crate::board::neighbor_lists(c0)[cur][upto],
    ));
    assert(reveal_ok(c0, c, t, y as int));
    let q2 = if is_hidden(c, y as int) {
        q.push(y)
    } else {
        q
    };
    assert forall|z: usize| settled(c0, c, q, z) implies settled(c0, c, q2, z) by {
        if is_hidden(c0, z as int) && c[z as int].state != CellState::Revealed {
            let w = choose|w: int| 0 <= w < q.len() && q[w] == z;
            assert(q2[w] == z);
        }
    }
    assert(settled(c0, c, q2, y)) by {
        if is_hidden(c, y as int) {
            assert(q2[q.len() as int] == y);
        }
    }
    assert forall|j: int| 0 <= j < q2.len() implies queued_ok(c0, t, #[trigger] q2[j]) by {
        if j < q.len() {
            assert(q2[j] == q[j]);
        } else if is_hidden(c0, y as int) {
            assert(c0[cur].neighbor_ids@.contains(y));
            lemma_sweep_extends(c0, t, cur as usize, y);
        }
    }
    assert forall|x: int| 0 <= x < c0.len() implies #[trigger] expanded_to(
        c0,
        c,
        q2,
        x,
        due(c0, x, cur, upto + 1),
    ) by {
        assert(expanded_to(c0, c, q, x, due(c0, x, cur, upto)));
    }
}

/// The cell being expanded is done, or does not spread: the invariant holds
/// with no cell under way.
proof fn lemma_sweep_inv_close(
    c0: Seq<Cell>,
    c: Seq<Cell>,
    t: Seq<usize>,
    q: Seq<usize>,
    cur: int,
    upto: int,
)
    requires
        sweep_inv(c0, c, t, q, cur, upto),
        0 <= cur < c0.len(),
        !spreads(c0[cur]) || upto >= c0[cur].neighbor_ids@.len(),
    ensures
        sweep_inv(c0, c, t, q, -1, 0),
{
    assert forall|x: int| 0 <= x < c0.len() implies #[trigger] expanded_to(
        c0,
        c,
        q,
        x,
        due(c0, x, -1, 0),
    ) by {
        assert(expanded_to(c0, c, q, x, due(c0, x, cur, upto)));
    }
}

/// With the queue empty, every cell on a sweep path from a target is
/// revealed.
proof fn lemma_closed_covers(c0: Seq<Cell>, c: Seq<Cell>, t: Seq<usize>, path: Seq<usize>)
    requires
        sweep_inv(c0, c, t, Seq::<usize>::empty(), -1, 0),
        is_sweep_path(c0, path),
        t.contains(path[0]),
    ensures
        c[path.last() as int].state == CellState::Revealed,
    decreases path.len(),
{
    let q = Seq::<usize>::empty();
    if path.len() == 1 {
        let k = choose|k: int| 0 <= k < t.len() && t[k] == path[0];
        assert(settled(c0, c, q, t[k]));
        assert(is_hidden(c0, path[0] as int));
    } else {
        let head = path.drop_last();
        assert forall|k: int| 0 <= k < head.len() implies is_hidden(
            c0,
            #[trigger] head[k] as int,
        ) by {
            assert(is_hidden(c0, path[k] as int));
        }
        assert forall|k: int| 0 <= k < head.len() - 1 implies spreads(
            c0[(#[trigger] head[k]) as int],
        ) && c0[head[k] as int].neighbor_ids@.contains(head[k + 1]) by {
            assert(spreads(c0[path[k] as int]));
            assert(head[k + 1] == path[k + 1]);
        }
        assert(head[0] == path[0]);
        lemma_closed_covers(c0, c, t, head);
        let x = path[path.len() - 2];
        let y = path.last();
        assert(head.last() == x);
        assert(is_hidden(c0, x as int));
        assert(spreads(c0[x as int]) && c0[x as int].neighbor_ids@.contains(path[path.len() - 2 + 1]));
        assert(expanded_to(c0, c, q, x as int, due(c0, x as int, -1, 0)));
        let k = choose|k: int|
            0 <= k < c0[x as int].neighbor_ids@.len() && c0[x as int].neighbor_ids@[k] == y;
        assert(settled(c0, c, q, c0[x as int].neighbor_ids@[k]));
        assert(is_hidden(c0, path[path.len() - 1] as int));
    }
}

/// With the queue empty, the cells are the result of the reveal.
proof fn lemma_sweep_inv_final(c0: Seq<Cell>, c: Seq<Cell>, t: Seq<usize>)
    requires
        sweep_inv(c0, c, t, Seq::<usize>::empty(), -1, 0),
        c0.len() <= usize::MAX,
    ensures
        sweep_result(c0, c, t),
        hit_so_far(c0, c) == mine_swept(c0, t),
{
    assert forall|i: int| 0 <= i < c.len() implies (#[trigger] c[i]).state == if swept(
        c0,
        t,
        i as usize,
    ) {
        CellState::Revealed
    } else {
        c0[i].state
    } by {
        assert(reveal_ok(c0, c, t, i));
        if swept(c0, t, i as usize) {
            let path = choose|path: Seq<usize>|
                #[trigger] is_sweep_path(c0, path) && t.contains(path[0]) && path.last()
                    == i as usize;
            lemma_closed_covers(c0, c, t, path);
        }
    }
    if hit_so_far(c0, c) {
        let x = choose|x: int| hit_at(c0, c, x);
        assert(reveal_ok(c0, c, t, x));
        assert(swept(c0, t, x as usize) && c0[x as usize as int].is_mine);
    }
    if mine_swept(c0, t) {
        let id = choose|id: usize| #[trigger] swept(c0, t, id) && c0[id as int].is_mine;
        lemma_swept_is_hidden(c0, t, id);
        assert(c[id as int].state == CellState::Revealed);
        assert(hit_at(c0, c, id as int));
    }
}

/// Reveals the targets and everything the reveal spreads to.
///
/// Each target that is a hidden cell is revealed. From a revealed cell that
/// is no mine and has no mine among its neighbours the reveal goes on to its
/// hidden neighbours, until nothing is left to do. Targets that are not
/// hidden cells of the board are passed over. The session counts each
/// revealed cell once. The result says whether a mine was revealed.
#[verifier::loop_isolation(false)]
pub fn sweep(board: &mut Board, session: &mut GameSession, targets: Vec<usize>) -> (hit: bool)
    requires
        old(board).wf(),
        old(board).placed(),
        in_step(old(board)@, *old(session)),
    ensures
        final(board).wf(),
        final(board).placed(),
        sweep_result(old(board)@, final(board)@, targets@),
        hit == mine_swept(old(board)@, targets@),
        *final(session) == (GameSession {
            cells_revealed: final(session).cells_revealed,
            ..*old(session)
        }),
        in_step(final(board)@, *final(session)),
{
    let ghost c0 = board@;
    let ghost t = targets@;
    let mut queue = targets;
    let mut hit = false;
    let n = board.len();
    proof {
        lemma_sweep_inv_init(c0, t);
    }
    while queue.len() > 0
        invariant
            n == c0.len(),
            board@.len() == n,
            board.placed(),
            sweep_inv(c0, board@, t, queue@, -1, 0),
            in_step(board@, *session),
            *session == (GameSession { cells_revealed: session.cells_revealed, ..*old(session) }),
            hit == hit_so_far(c0, board@),
        decreases count_state(board@, CellState::Hidden), queue.len(),
    {
        let ghost q = queue@;
        let ghost c = board@;
        let id = queue.pop().unwrap();
        if id < n && board.cells()[id].state == CellState::Hidden {
            let is_mine = board.cells()[id].is_mine;
            let adjacent = board.cells()[id].adjacent_mines;
            proof {
                lemma_sweep_inv_reveal(c0, c, t, q);
                let c2 = with_state(c, id as int, CellState::Revealed);
                lemma_count_state_update(c, id as int, c2[id as int], CellState::Revealed);
                lemma_count_state_update(c, id as int, c2[id as int], CellState::Flagged);
                lemma_count_state_update(c, id as int, c2[id as int], CellState::Hidden);
                lemma_count_state_bound(c, CellState::Revealed);
                assert(hit_so_far(c0, c2) == (hit || c0[id as int].is_mine)) by {
                    if hit_so_far(c0, c) {
                        let x = choose|x: int| hit_at(c0, c, x);
                        assert(hit_at(c0, c2, x));
                    }
                    if c0[id as int].is_mine {
                        assert(hit_at(c0, c2, id as int));
                    }
                    if hit_so_far(c0, c2) {
                        let x = choose|x: int| hit_at(c0, c2, x);
                        if x != id {
                            assert(hit_at(c0, c, x));
                        }
                    }
                }
            }
            board.set_state(id, CellState::Revealed);
            session.cells_revealed += 1;
            if is_mine {
                hit = true;
                proof {
                    lemma_sweep_inv_close(c0, board@, t, queue@, id as int, 0);
                }
            } else if adjacent == 0 {
                let degree = board.cells()[id].neighbor_ids.len();
                let mut k: usize = 0;
                while k < degree
                    invariant
                        k <= degree,
                        degree == c0[id as int].neighbor_ids@.len(),
                        sweep_inv(c0, board@, t, queue@, id as int, k as int),
                    decreases degree - k,
                {
                    let neighbor = board.cells()[id].neighbor_ids[k];
                    proof {
                        lemma_sweep_inv_push(c0, board@, t, queue@, id as int, k as int);
                    }
                    if board.cells()[neighbor].state == CellState::Hidden {
                        queue.push(neighbor);
                    }
                    k += 1;
                }
                proof {
                    lemma_sweep_inv_close(c0, board@, t, queue@, id as int, degree as int);
                }
            } else {
                proof {
                    lemma_sweep_inv_close(c0, board@, t, queue@, id as int, 0);
                }
            }
        } else {
            proof {
                lemma_sweep_inv_skip(c0, c, t, q);
            }
        }
    }
    proof {
        assert(queue@ =~= Seq::<usize>::empty());
        lemma_sweep_inv_final(c0, board@, t);
        lemma_same_mines_wf(c0, board@);
    }
    hit
}

// ---------------------------------------------------------------------------
// Requests, chords and the drain of a tick
// ---------------------------------------------------------------------------

/// A request to reveal the cell with this id.
#[derive(Debug, Clone, Copy, PartialEq, Eq)]
pub struct RevealCell(pub usize);

/// A request to chord on the cell with this id.
#[derive(Debug, Clone, Copy, PartialEq, Eq)]
pub struct ChordCell(pub usize);

/// The predicate "this id is a cell of the board in state `st`".
pub open spec fn in_state_at(cells: Seq<Cell>, st: CellState) -> spec_fn(usize) -> bool {
    |j: usize| j < cells.len() && cells[j as int].state == st
}

/// The number of flagged neighbours of cell `id`.
pub open spec fn flagged_neighbors(cells: Seq<Cell>, id: int) -> nat {
    cells[id].neighbor_ids@.filter(in_state_at(cells, CellState::Flagged)).len()
}

/// The hidden neighbours of cell `id`, in the order of its neighbour list.
pub open spec fn hidden_neighbors(cells: Seq<Cell>, id: int) -> Seq<usize> {
    cells[id].neighbor_ids@.filter(in_state_at(cells, CellState::Hidden))
}

/// A chord on `id` takes effect: the cell is revealed and has as many
/// flagged neighbours as adjacent mines.
pub open spec fn chord_applies(cells: Seq<Cell>, id: usize) -> bool {
    &&& id < cells.len()
    &&& cells[id as int].state == CellState::Revealed
    &&& flagged_neighbors(cells, id as int) == cells[id as int].adjacent_mines
}

/// The cells that a chord on `id` asks to reveal: the hidden neighbours
/// where the chord takes effect, none otherwise.
pub open spec fn chord_targets(cells: Seq<Cell>, id: usize) -> Seq<usize> {
    if chord_applies(cells, id) {
        hidden_neighbors(cells, id as int)
    } else {
        Seq::empty()
    }
}

/// The ids of the reveal requests, in order.
pub open spec fn reveal_ids(reveals: Seq<RevealCell>) -> Seq<usize> {
    Seq::new(reveals.len(), |i: int| reveals[i].0)
}

/// The targets of the chord requests, one chord after the other.
pub open spec fn chord_queue(cells: Seq<Cell>, chords: Seq<ChordCell>) -> Seq<usize>
    decreases chords.len(),
{
    if chords.len() == 0 {
        Seq::empty()
    } else {
        chord_queue(cells, chords.drop_last()) + chord_targets(cells, chords.last().0)
    }
}

/// The work queue of a tick: the reveal requests, then what the chords ask
/// for.
pub open spec fn work_queue(
    cells: Seq<Cell>,
    reveals: Seq<RevealCell>,
    chords: Seq<ChordCell>,
) -> Seq<usize> {
    reveal_ids(reveals) + chord_queue(cells, chords)
}

/// The first target that is a hidden cell of the board, if there is one.
pub open spec fn first_hidden(cells: Seq<Cell>, targets: Seq<usize>) -> Option<usize>
    decreases targets.len(),
{
    if targets.len() == 0 {
        None
    } else if is_hidden(cells, targets[0] as int) {
        Some(targets[0])
    } else {
        first_hidden(cells, targets.drop_first())
    }
}

/// Mines are placed round `anchor` in the order `order`, which gives the
/// cells `mid`; the reveal of `targets` on `mid` gives `after` and reports
/// `hit`.
pub open spec fn placed_then_swept(
    before: Seq<Cell>,
    anchor: usize,
    count: int,
    order: Seq<usize>,
    mid: Seq<Cell>,
    after: Seq<Cell>,
    targets: Seq<usize>,
    hit: bool,
) -> bool {
    &&& is_shuffle_of(order, candidate_pool(before, anchor))
    &&& mines_placed_by(before, mid, order, count)
    &&& sweep_result(mid, after, targets)
    &&& hit == mine_swept(mid, targets)
}

/// The signal of a tick: the game is over where a mine was revealed.
pub open spec fn signal(hit: bool) -> Option<AppState> {
    if hit {
        Some(AppState::GameOver)
    } else {
        None
    }
}

/// Resolves a chord on `id` into the cells it asks to reveal.
///
/// On a revealed cell whose flagged neighbours are as many as its adjacent
/// mines these are its hidden neighbours. On any other cell, or an id off
/// the board, the chord asks for nothing.
pub fn resolve_chord(board: &Board, id: usize) -> (targets: Vec<usize>)
    ensures
        targets@ == chord_targets(board@, id),
{
    let cells = board.cells();
    let mut hidden: Vec<usize> = Vec::new();
    if id >= cells.len() || cells[id].state != CellState::Revealed {
        return hidden;
    }
    let list = &cells[id].neighbor_ids;
    let ghost flagged = in_state_at(cells@, CellState::Flagged);
    let ghost unseen = in_state_at(cells@, CellState::Hidden);
    let mut flags: usize = 0;
    let mut k: usize = 0;
    proof {
        reveal(Seq::filter);
        assert(list@.take(0).filter(flagged) =~= Seq::<usize>::empty());
        assert(list@.take(0).filter(unseen) =~= Seq::<usize>::empty());
    }
    while k < list.len()
        invariant
            k <= list.len(),
            cells@ == board@,
            flagged == in_state_at(cells@, CellState::Flagged),
            unseen == in_state_at(cells@, CellState::Hidden),
            flags == list@.take(k as int).filter(flagged).len(),
            flags <= k,
            hidden@ == list@.take(k as int).filter(unseen),
        decreases list.len() - k,
    {
        let j = list[k];
        proof {
            assert(list@.take(k + 1) =~= list@.take(k as int).push(j));
            list@.take(k as int).lemma_filter_push(j, flagged);
            list@.take(k as int).lemma_filter_push(j, unseen);
        }
        if j < cells.len() {
            if cells[j].state == CellState::Flagged {
                flags += 1;
            } else if cells[j].state == CellState::Hidden {
                hidden.push(j);
            }
        }
        k += 1;
    }
    assert(list@.take(list.len() as int) =~= list@);
    if flags == cells[id].adjacent_mines as usize {
        hidden
    } else {
        Vec::new()
    }
}

/// Builds the work queue of a tick: the ids of the reveal requests, then
/// the targets of each chord, resolved on the board as it stands.
pub fn collect_targets(board: &Board, reveals: &Vec<RevealCell>, chords: &Vec<ChordCell>) -> (queue:
    Vec<usize>)
    ensures
        queue@ == work_queue(board@, reveals@, chords@),
{
    let mut queue: Vec<usize> = Vec::new();
    let mut i: usize = 0;
    while i < reveals.len()
        invariant
            i <= reveals.len(),
            queue@ == reveal_ids(reveals@).take(i as int),
        decreases reveals.len() - i,
    {
        queue.push(reveals[i].0);
        assert(reveal_ids(reveals@).take(i + 1) =~= reveal_ids(reveals@).take(i as int).push(
            reveals@[i as int].0,
        ));
        i += 1;
    }
    assert(reveal_ids(reveals@).take(reveals.len() as int) =~= reveal_ids(reveals@));
    let mut j: usize = 0;
    assert(chords@.take(0) =~= Seq::<ChordCell>::empty());
    assert(queue@ =~= reveal_ids(reveals@) + chord_queue(board@, chords@.take(0)));
    while j < chords.len()
        invariant
            j <= chords.len(),
            queue@ == reveal_ids(reveals@) + chord_queue(board@, chords@.take(j as int)),
        decreases chords.len() - j,
    {
        let mut found = resolve_chord(board, chords[j].0);
        proof {
            let longer = chords@.take(j + 1);
            assert(longer.drop_last() =~= chords@.take(j as int));
            assert(longer.last() == chords@[j as int]);
            assert(reveal_ids(reveals@) + chord_queue(board@, longer) =~= (reveal_ids(reveals@)
                + chord_queue(board@, chords@.take(j as int))) + found@);
        }
        queue.append(&mut found);
        j += 1;
    }
    assert(chords@.take(chords.len() as int) =~= chords@);
    queue
}

/// Finds the first target that is a hidden cell of the board.
pub fn first_hidden_target(board: &Board, targets: &Vec<usize>) -> (found: Option<usize>)
    ensures
        found == first_hidden(board@, targets@),
        match found {
            Some(id) => is_hidden(board@, id as int) && targets@.contains(id),
            None => forall|k: int| 0 <= k < targets@.len() ==> !is_hidden(board@, #[trigger] targets@[k] as int),
        },
{
    let cells = board.cells();
    let mut k: usize = 0;
    assert(targets@.skip(0) =~= targets@);
    while k < targets.len()
        invariant
            k <= targets.len(),
            cells@ == board@,
            first_hidden(board@, targets@) == first_hidden(board@, targets@.skip(k as int)),
            forall|j: int| 0 <= j < k ==> !is_hidden(board@, #[trigger] targets@[j] as int),
        decreases targets.len() - k,
    {
        let id = targets[k];
        proof {
            let rest = targets@.skip(k as int);
            assert(rest[0] == id);
            assert(rest.drop_first() =~= targets@.skip(k + 1));
        }
        if id < cells.len() && cells[id].state == CellState::Hidden {
            return Some(id);
        }
        k += 1;
    }
    assert(targets@.skip(targets.len() as int).len() == 0);
    None
}

/// Drains the requests of one tick.
///
/// The chords are resolved on the board as it stands and their targets
/// follow the reveal requests in one work queue. Where no mines are placed
/// yet and the queue holds a hidden cell, the first such cell anchors the
/// safe zone and mines are placed before anything is revealed; where it
/// holds none, nothing happens. Then the queue is revealed to its end.
/// Returns `Some(AppState::GameOver)` exactly when a mine was revealed.
pub fn process_reveal_queue(
    board: &mut Board,
    session: &mut GameSession,
    reveals: &Vec<RevealCell>,
    chords: &Vec<ChordCell>,
) -> (next: Option<AppState>)
    requires
        old(board).wf(),
        in_step(old(board)@, *old(session)),
    ensures
        final(board).wf(),
        in_step(final(board)@, *final(session)),
        old(board).placed() ==> {
            &&& final(board).placed()
            &&& sweep_result(
                old(board)@,
                final(board)@,
                work_queue(old(board)@, reveals@, chords@),
            )
            &&& next == signal(
                mine_swept(old(board)@, work_queue(old(board)@, reveals@, chords@)),
            )
            &&& *final(session) == (GameSession {
                cells_revealed: final(session).cells_revealed,
                ..*old(session)
            })
        },
        !old(board).placed() ==> match first_hidden(
            old(board)@,
            work_queue(old(board)@, reveals@, chords@),
        ) {
            None => {
                &&& final(board)@ == old(board)@
                &&& !final(board).placed()
                &&& *final(session) == *old(session)
                &&& next.is_none()
            },
            Some(anchor) => {
                &&& final(board).placed()
                &&& exists|order: Seq<usize>, mid: Seq<Cell>| #[trigger]
                    placed_then_swept(
                        old(board)@,
                        anchor,
                        mine_count_spec(old(session).total_cells, old(session).level),
                        order,
                        mid,
                        final(board)@,
                        work_queue(old(board)@, reveals@, chords@),
                        next.is_some(),
                    )
                &&& next == signal(next.is_some())
                &&& *final(session) == (GameSession {
                    cells_revealed: final(session).cells_revealed,
                    ..session_with_mines(*old(session))
                })
            },
        },
{
    let queue = collect_targets(board, reveals, chords);
    let ghost before = board@;
    let ghost count = mine_count_spec(session.total_cells, session.level);
    let placed = board.mines_placed();
    if !placed {
        match first_hidden_target(board, &queue) {
            Some(anchor) => {
                initialize_mines(board, anchor, session);
            },
            None => {
                return None;
            },
        }
    }
    let ghost mid = board@;
    let hit = sweep(board, session, queue);
    proof {
        if !placed {
            let anchor = first_hidden(before, queue@).unwrap();
            let order = choose|order: Seq<usize>|
                is_shuffle_of(order, candidate_pool(before, anchor)) && #[trigger] mines_placed_by(
                    before,
                    mid,
                    order,
                    count,
                );
            assert(placed_then_swept(before, anchor, count, order, mid, board@, queue@, hit));
        }
    }
    if hit {
        Some(AppState::GameOver)
    } else {
        None
    }
}

/// The work queue of a single reveal request holds its cell.
pub proof fn lemma_single_reveal(cells: Seq<Cell>, id: usize)
    ensures
        work_queue(cells, seq![RevealCell(id)], Seq::empty()) == seq![id],
        first_hidden(cells, seq![id]) == if is_hidden(cells, id as int) {
            Some(id)
        } else {
            None
        },
{
    assert(work_queue(cells, seq![RevealCell(id)], Seq::empty()) =~= seq![id]);
    assert(seq![id].drop_first() =~= Seq::<usize>::empty());
    assert(seq![id][0] == id);
    reveal_with_fuel(first_hidden, 2);
}

/// The work queue of a single chord request holds the targets of the
/// chord; before mines are placed it holds nothing.
pub proof fn lemma_single_chord(cells: Seq<Cell>, placed: bool, id: usize)
    requires
        cells_wf(cells, placed),
    ensures
        work_queue(cells, Seq::empty(), seq![ChordCell(id)]) == chord_targets(cells, id),
        !placed ==> chord_targets(cells, id) == Seq::<usize>::empty(),
{
    let chords = seq![ChordCell(id)];
    assert(chords.drop_last() =~= Seq::<ChordCell>::empty());
    assert(chord_queue(cells, chords) =~= chord_targets(cells, id)) by {
        reveal_with_fuel(chord_queue, 2);
    }
    assert(work_queue(cells, Seq::empty(), chords) =~= chord_targets(cells, id));
}

/// Where no neighbour of a cell is counted as a mine, none is one.
pub proof fn lemma_no_mine_counted(cells: Seq<Cell>, ids: Seq<usize>, k: int)
    requires
        crate::board::count_mines(cells, ids) == 0,
        0 <= k < ids.len(),
        ids[k] < cells.len(),
    ensures
        !cells[ids[k] as int].is_mine,
{
    let pred = crate::board::is_mine_at(cells);
    if cells[ids[k] as int].is_mine {
        ids.lemma_filter_contains(pred, k);
        assert(ids.filter(pred).len() > 0);
    }
}

/// A reveal that starts from cells without a mine reveals no mine: it
/// spreads only from cells that count no mine among their neighbours.
pub proof fn lemma_sweep_reveals_no_mine(cells: Seq<Cell>, targets: Seq<usize>)
    requires
        cells_wf(cells, true),
        forall|k: int|
            0 <= k < targets.len() && is_hidden(cells, #[trigger] targets[k] as int)
                ==> !cells[targets[k] as int].is_mine,
    ensures
        !mine_swept(cells, targets),
{
    if mine_swept(cells, targets) {
        let id = choose|id: usize| #[trigger] swept(cells, targets, id) && cells[id as int].is_mine;
        let path = choose|path: Seq<usize>|
            #[trigger] is_sweep_path(cells, path) && targets.contains(path[0]) && path.last() == id;
        assert(is_hidden(cells, path[path.len() - 1] as int));
        if path.len() == 1 {
            let k = choose|k: int| 0 <= k < targets.len() && targets[k] == path[0];
            assert(is_hidden(cells, targets[k] as int));
        } else {
            let x = path[path.len() - 2];
            assert(is_hidden(cells, x as int));
            assert(spreads(cells[x as int]) && cells[x as int].neighbor_ids@.contains(
                path[path.len() - 2 + 1],
            ));
            let list = cells[x as int].neighbor_ids@;
            let k = choose|k: int| 0 <= k < list.len() && list[k] == id;
            assert(cells[x as int].adjacent_mines == crate::board::mine_neighbors(cells, x as int));
            lemma_no_mine_counted(cells, list, k);
        }
    }
}

/// Where a cell changes in a reveal, it was hidden and is revealed: a
/// revealed cell stays revealed, a flagged cell stays flagged, and no cell
/// gains or loses a mine.
pub proof fn lemma_sweep_transitions(before: Seq<Cell>, after: Seq<Cell>, targets: Seq<usize>)
    requires
        before.len() <= usize::MAX,
        sweep_result(before, after, targets),
    ensures
        same_mines(before, after),
        forall|i: int|
            0 <= i < before.len() && (#[trigger] after[i]).state != before[i].state
                ==> before[i].state == CellState::Hidden && after[i].state == CellState::Revealed,
{
    assert forall|i: int|
        0 <= i < before.len() && (#[trigger] after[i]).state != before[i].state implies before[i].state
        == CellState::Hidden && after[i].state == CellState::Revealed by {
        if swept(before, targets, i as usize) {
            lemma_swept_is_hidden(before, targets, i as usize);
        }
    }
}

/// Reveals one cell: a tick with this one reveal request.
///
/// On a hidden cell of a board without mines this places the mines, with
/// the cell as the anchor of the safe zone, and then reveals the cell and
/// what the reveal spreads to; no mine is revealed then. With mines placed
/// it reveals the cell and what the reveal spreads to. On a cell that is
/// not hidden, or an id off the board, nothing changes.
pub fn reveal_cell(board: &mut Board, session: &mut GameSession, id: usize) -> (next: Option<
    AppState,
>)
    requires
        old(board).wf(),
        in_step(old(board)@, *old(session)),
    ensures
        final(board).wf(),
        in_step(final(board)@, *final(session)),
        old(board).placed() ==> {
            &&& final(board).placed()
            &&& sweep_result(old(board)@, final(board)@, seq![id])
            &&& next == signal(mine_swept(old(board)@, seq![id]))
            &&& *final(session) == (GameSession {
                cells_revealed: final(session).cells_revealed,
                ..*old(session)
            })
        },
        !old(board).placed() && !is_hidden(old(board)@, id as int) ==> {
            &&& final(board)@ == old(board)@
            &&& !final(board).placed()
            &&& *final(session) == *old(session)
            &&& next.is_none()
        },
        !old(board).placed() && is_hidden(old(board)@, id as int) ==> {
            &&& final(board).placed()
            &&& exists|order: Seq<usize>, mid: Seq<Cell>| #[trigger]
                placed_then_swept(
                    old(board)@,
                    id,
                    mine_count_spec(old(session).total_cells, old(session).level),
                    order,
                    mid,
                    final(board)@,
                    seq![id],
                    false,
                )
            &&& next.is_none()
            &&& *final(session) == (GameSession {
                cells_revealed: final(session).cells_revealed,
                ..session_with_mines(*old(session))
            })
        },
{
    let mut reveals: Vec<RevealCell> = Vec::new();
    reveals.push(RevealCell(id));
    let chords: Vec<ChordCell> = Vec::new();
    let ghost before = board@;
    let ghost count = mine_count_spec(session.total_cells, session.level);
    let n = board.len();
    proof {
        assert(reveals@ =~= seq![RevealCell(id)]);
        assert(chords@ =~= Seq::<ChordCell>::empty());
        lemma_single_reveal(before, id);
    }
    let next = process_reveal_queue(board, session, &reveals, &chords);
    proof {
        if !old(board).placed() && is_hidden(before, id as int) {
            let (order, mid) = choose|order: Seq<usize>, mid: Seq<Cell>| #[trigger]
                placed_then_swept(
                    before,
                    id,
                    count,
                    order,
                    mid,
                    board@,
                    seq![id],
                    next.is_some(),
                );
            crate::mines::lemma_safe_zone_is_free(before, mid, id, order, count);
            crate::mines::lemma_placement_wf(before, mid, order, count);
            assert(!mid[id as int].is_mine);
            assert forall|k: int|
                0 <= k < seq![id].len() && is_hidden(mid, #[trigger] seq![id][k] as int) implies !mid[seq![id][k] as int].is_mine by {}
            lemma_sweep_reveals_no_mine(mid, seq![id]);
            assert(placed_then_swept(before, id, count, order, mid, board@, seq![id], false));
        }
    }
    next
}

/// Chords on one cell: a tick with this one chord request.
///
/// On a revealed cell with as many flagged neighbours as adjacent mines
/// this reveals the hidden neighbours of the cell and what the reveal
/// spreads to. On any other cell, or an id off the board, nothing changes.
pub fn chord_cell(board: &mut Board, session: &mut GameSession, id: usize) -> (next: Option<
    AppState,
>)
    requires
        old(board).wf(),
        in_step(old(board)@, *old(session)),
    ensures
        final(board).wf(),
        final(board).placed() == old(board).placed(),
        in_step(final(board)@, *final(session)),
        sweep_result(old(board)@, final(board)@, chord_targets(old(board)@, id)),
        next == signal(mine_swept(old(board)@, chord_targets(old(board)@, id))),
        *final(session) == (GameSession {
            cells_revealed: final(session).cells_revealed,
            ..*old(session)
        }),
{
    let reveals: Vec<RevealCell> = Vec::new();
    let mut chords: Vec<ChordCell> = Vec::new();
    chords.push(ChordCell(id));
    let ghost before = board@;
    proof {
        assert(reveals@ =~= Seq::<RevealCell>::empty());
        assert(chords@ =~= seq![ChordCell(id)]);
        lemma_single_chord(before, board.placed(), id);
        if !board.placed() {
            lemma_nothing_swept(before);
        }
    }
    process_reveal_queue(board, session, &reveals, &chords)
}

/// A reveal without targets changes nothing and reveals no mine.
pub proof fn lemma_nothing_swept(cells: Seq<Cell>)
    ensures
        sweep_result(cells, cells, Seq::empty()),
        !mine_swept(cells, Seq::empty()),
        first_hidden(cells, Seq::empty()).is_none(),
{
    let t = Seq::<usize>::empty();
    assert forall|id: usize| !swept(cells, t, id) by {
        if swept(cells, t, id) {
            let path = choose|path: Seq<usize>|
                #[trigger] is_sweep_path(cells, path) && t.contains(path[0]) && path.last() == id;
            let w = choose|w: int| 0 <= w < t.len() && t[w] == path[0];
        }
    }
}

} // verus!
