//! The board: one cell per face of the polyhedron, indexed by cell id.

use crate::session::GameSession;
use vstd::prelude::*;

verus! {

/// Largest number of neighbours a cell may have: the adjacent-mine count of a
/// cell is kept in a `u8`.
pub const MAX_NEIGHBORS: usize = 255;

/// What the player sees of a cell.
#[derive(PartialEq, Eq, Clone, Copy, Debug, Hash, Structural)]
pub enum CellState {
    Hidden,
    Revealed,
    Flagged,
}

impl Default for CellState {
    fn default() -> (s: Self)
        ensures
            s == CellState::Hidden,
    {
        CellState::Hidden
    }
}

/// One cell of the board.
#[derive(Debug, Clone, PartialEq, Eq)]
pub struct Cell {
    pub id: usize,
    pub neighbor_ids: Vec<usize>,
    pub is_mine: bool,
    pub state: CellState,
    pub adjacent_mines: u8,
}

/// The cells of one level. The fields are private: a board is made by
/// [`Board::new`] and changed only by the operations of this crate, which
/// keep it well formed.
#[derive(Debug, Clone, PartialEq, Eq)]
pub struct Board {
    cells: Vec<Cell>,
    mines_placed: bool,
}

impl View for Board {
    type V = Seq<Cell>;

    closed spec fn view(&self) -> Seq<Cell> {
        self.cells@
    }
}

// ---------------------------------------------------------------------------
// The adjacency graph
// ---------------------------------------------------------------------------

/// The neighbour lists of a vector of lists, as sequences.
pub open spec fn lists_of(adjacency: Seq<Vec<usize>>) -> Seq<Seq<usize>> {
    Seq::new(adjacency.len(), |i: int| adjacency[i]@)
}

/// The neighbour lists of the cells, in cell order.
pub open spec fn neighbor_lists(cells: Seq<Cell>) -> Seq<Seq<usize>> {
    Seq::new(cells.len(), |i: int| cells[i].neighbor_ids@)
}

/// `j` may stand in the neighbour list of `i`: it is another cell of the
/// board, and `i` stands in its list too.
pub open spec fn valid_link(adj: Seq<Seq<usize>>, i: int, j: usize) -> bool {
    &&& j < adj.len()
    &&& j != i
    &&& adj[j as int].contains(i as usize)
}

/// The neighbour list of `i` is short enough, names no cell twice, and each
/// of its entries is a valid link.
pub open spec fn valid_neighbors(adj: Seq<Seq<usize>>, i: int) -> bool {
    &&& adj[i].len() <= MAX_NEIGHBORS
    &&& adj[i].no_duplicates()
    &&& forall|k: int| 0 <= k < adj[i].len() ==> valid_link(adj, i, #[trigger] adj[i][k])
}

/// The lists describe an undirected graph without loops or double edges:
/// adjacency is symmetric, no cell is its own neighbour, and no list names a
/// cell twice or a cell that does not exist.
pub open spec fn valid_adjacency(adj: Seq<Seq<usize>>) -> bool {
    forall|i: int| 0 <= i < adj.len() ==> #[trigger] valid_neighbors(adj, i)
}

// ---------------------------------------------------------------------------
// Counting
// ---------------------------------------------------------------------------

/// The predicate "this id is a mine of `cells`".
pub open spec fn is_mine_at(cells: Seq<Cell>) -> spec_fn(usize) -> bool {
    |j: usize| j < cells.len() && cells[j as int].is_mine
}

/// The number of entries of `ids` that are mines of `cells`.
pub open spec fn count_mines(cells: Seq<Cell>, ids: Seq<usize>) -> nat {
    ids.filter(is_mine_at(cells)).len()
}

/// The number of neighbours of cell `i` that are mines.
pub open spec fn mine_neighbors(cells: Seq<Cell>, i: int) -> nat {
    count_mines(cells, cells[i].neighbor_ids@)
}

/// The predicate "this cell is in state `st`".
pub open spec fn has_state(st: CellState) -> spec_fn(Cell) -> bool {
    |c: Cell| c.state == st
}

/// The number of cells in state `st`.
pub open spec fn count_state(cells: Seq<Cell>, st: CellState) -> nat {
    cells.filter(has_state(st)).len()
}

/// The predicate "this cell is a mine".
pub open spec fn has_mine() -> spec_fn(Cell) -> bool {
    |c: Cell| c.is_mine
}

/// The number of mines on the board.
pub open spec fn mine_total(cells: Seq<Cell>) -> nat {
    cells.filter(has_mine()).len()
}

/// The cell that a new board holds at index `i`.
pub open spec fn is_fresh_cell(c: Cell, i: int, neighbors: Seq<usize>) -> bool {
    &&& c.id == i
    &&& c.neighbor_ids@ == neighbors
    &&& !c.is_mine
    &&& c.state == CellState::Hidden
    &&& c.adjacent_mines == 0
}

/// Two cell sequences that differ at most in what mine placement and play
/// change: ids and neighbour lists are the same.
pub open spec fn same_graph(a: Seq<Cell>, b: Seq<Cell>) -> bool {
    &&& a.len() == b.len()
    &&& forall|i: int|
        0 <= i < a.len() ==> (#[trigger] a[i]).id == b[i].id && a[i].neighbor_ids
            == b[i].neighbor_ids
}

/// Two cell sequences with the same graph and the same mines and counts:
/// they differ at most in the cells' states.
pub open spec fn same_mines(a: Seq<Cell>, b: Seq<Cell>) -> bool {
    &&& same_graph(a, b)
    &&& forall|i: int|
        0 <= i < a.len() ==> (#[trigger] a[i]).is_mine == b[i].is_mine && a[i].adjacent_mines
            == b[i].adjacent_mines
}

/// Well-formedness of the cells of a board.
///
/// Each cell's id is its index; the neighbour lists form a valid adjacency;
/// every cell without a mine carries the exact number of its mine
/// neighbours; and until mines are placed no cell is a mine or revealed.
pub open spec fn cells_wf(cells: Seq<Cell>, placed: bool) -> bool {
    &&& forall|i: int| 0 <= i < cells.len() ==> (#[trigger] cells[i]).id == i
    &&& valid_adjacency(neighbor_lists(cells))
    &&& forall|i: int|
        0 <= i < cells.len() && !(#[trigger] cells[i]).is_mine ==> cells[i].adjacent_mines
            == mine_neighbors(cells, i)
    &&& !placed ==> forall|i: int|
        0 <= i < cells.len() ==> !(#[trigger] cells[i]).is_mine && cells[i].state
            != CellState::Revealed
}

/// The session's counters agree with the cells: the number of cells, of
/// revealed cells and of flags.
pub open spec fn in_step(cells: Seq<Cell>, s: GameSession) -> bool {
    &&& s.total_cells == cells.len()
    &&& s.cells_revealed == count_state(cells, CellState::Revealed)
    &&& s.flags_placed == count_state(cells, CellState::Flagged)
}

/// The cells after cell `i` has changed its state to `st`.
pub open spec fn with_state(cells: Seq<Cell>, i: int, st: CellState) -> Seq<Cell> {
    cells.update(
        i,
        Cell {
            id: cells[i].id,
            neighbor_ids: cells[i].neighbor_ids,
            is_mine: cells[i].is_mine,
            state: st,
            adjacent_mines: cells[i].adjacent_mines,
        },
    )
}

/// The cells after a flag toggle on `id`: a hidden cell becomes flagged, a
/// flagged one hidden; a revealed cell or an id off the board changes
/// nothing.
pub open spec fn flag_toggled(cells: Seq<Cell>, id: usize) -> Seq<Cell> {
    if id >= cells.len() {
        cells
    } else if cells[id as int].state == CellState::Hidden {
        with_state(cells, id as int, CellState::Flagged)
    } else if cells[id as int].state == CellState::Flagged {
        with_state(cells, id as int, CellState::Hidden)
    } else {
        cells
    }
}

/// The flag counter after a flag toggle on `id`.
pub open spec fn flags_after_toggle(cells: Seq<Cell>, flags: int, id: usize) -> int {
    if id >= cells.len() {
        flags
    } else if cells[id as int].state == CellState::Hidden {
        flags + 1
    } else if cells[id as int].state == CellState::Flagged {
        flags - 1
    } else {
        flags
    }
}

// ---------------------------------------------------------------------------
// Lemmas on counting
// ---------------------------------------------------------------------------

/// Replacing one cell moves the count of a state by what the old and the new
/// cell contribute.
pub proof fn lemma_count_state_update(cells: Seq<Cell>, i: int, c: Cell, st: CellState)
    requires
        0 <= i < cells.len(),
    ensures
        count_state(cells.update(i, c), st) == count_state(cells, st) - (if cells[i].state == st {
            1int
        } else {
            0int
        }) + (if c.state == st {
            1int
        } else {
            0int
        }),
    decreases cells.len(),
{
    reveal(Seq::filter);
    let after = cells.update(i, c);
    if i == cells.len() - 1 {
        assert(after.drop_last() =~= cells.drop_last());
    } else {
        assert(after.drop_last() =~= cells.drop_last().update(i, c));
        lemma_count_state_update(cells.drop_last(), i, c, st);
    }
}

/// No state is counted more often than there are cells, and a cell in
/// another state leaves room for one more.
pub proof fn lemma_count_state_bound(cells: Seq<Cell>, st: CellState)
    ensures
        count_state(cells, st) <= cells.len(),
        forall|i: int|
            0 <= i < cells.len() && (#[trigger] cells[i]).state != st ==> count_state(cells, st)
                < cells.len(),
        forall|i: int|
            0 <= i < cells.len() && (#[trigger] cells[i]).state == st ==> count_state(cells, st)
                > 0,
    decreases cells.len(),
{
    reveal(Seq::filter);
    if cells.len() > 0 {
        lemma_count_state_bound(cells.drop_last(), st);
        assert forall|i: int| 0 <= i < cells.len() && (#[trigger] cells[i]).state != st implies
            count_state(cells, st) < cells.len() by {
            if i < cells.len() - 1 {
                assert(cells.drop_last()[i] == cells[i]);
            }
        }
        assert forall|i: int| 0 <= i < cells.len() && (#[trigger] cells[i]).state == st implies
            count_state(cells, st) > 0 by {
            if i < cells.len() - 1 {
                assert(cells.drop_last()[i] == cells[i]);
            }
        }
    }
}

/// Replacing one cell moves the number of mines by what the old and the new
/// cell contribute.
pub proof fn lemma_mine_total_update(cells: Seq<Cell>, i: int, c: Cell)
    requires
        0 <= i < cells.len(),
    ensures
        mine_total(cells.update(i, c)) == mine_total(cells) - (if cells[i].is_mine {
            1int
        } else {
            0int
        }) + (if c.is_mine {
            1int
        } else {
            0int
        }),
    decreases cells.len(),
{
    reveal(Seq::filter);
    let after = cells.update(i, c);
    if i == cells.len() - 1 {
        assert(after.drop_last() =~= cells.drop_last());
    } else {
        assert(after.drop_last() =~= cells.drop_last().update(i, c));
        lemma_mine_total_update(cells.drop_last(), i, c);
    }
}

/// Cells with the same mines, one for one, hold as many mines.
pub proof fn lemma_same_mines_total(a: Seq<Cell>, b: Seq<Cell>)
    requires
        a.len() == b.len(),
        forall|i: int| 0 <= i < a.len() ==> (#[trigger] b[i]).is_mine == a[i].is_mine,
    ensures
        mine_total(a) == mine_total(b),
    decreases a.len(),
{
    reveal(Seq::filter);
    if a.len() > 0 {
        assert forall|i: int| 0 <= i < a.len() - 1 implies (#[trigger] b.drop_last()[i]).is_mine
            == a.drop_last()[i].is_mine by {
            assert(b[i].is_mine == a[i].is_mine);
        }
        lemma_same_mines_total(a.drop_last(), b.drop_last());
        assert(b[a.len() - 1].is_mine == a[a.len() - 1].is_mine);
    }
}

/// Where no mine is revealed, the revealed cells and the mines together are
/// at most the cells of the board.
pub proof fn lemma_revealed_and_mines(cells: Seq<Cell>)
    requires
        forall|i: int|
            0 <= i < cells.len() && (#[trigger] cells[i]).is_mine ==> cells[i].state
                != CellState::Revealed,
    ensures
        count_state(cells, CellState::Revealed) + mine_total(cells) <= cells.len(),
    decreases cells.len(),
{
    reveal(Seq::filter);
    if cells.len() > 0 {
        assert forall|i: int|
            0 <= i < cells.len() - 1 && (#[trigger] cells.drop_last()[i]).is_mine implies cells.drop_last()[i].state
            != CellState::Revealed by {
            assert(cells[i].is_mine);
        }
        lemma_revealed_and_mines(cells.drop_last());
        assert(cells[cells.len() - 1].is_mine ==> cells[cells.len() - 1].state
            != CellState::Revealed);
    }
}

/// On a board whose cells are all hidden, no cell is counted as revealed or
/// flagged.
pub proof fn lemma_all_hidden_counts(cells: Seq<Cell>)
    requires
        forall|i: int| 0 <= i < cells.len() ==> (#[trigger] cells[i]).state == CellState::Hidden,
    ensures
        count_state(cells, CellState::Revealed) == 0,
        count_state(cells, CellState::Flagged) == 0,
        count_state(cells, CellState::Hidden) == cells.len(),
    decreases cells.len(),
{
    reveal(Seq::filter);
    if cells.len() > 0 {
        assert forall|i: int| 0 <= i < cells.len() - 1 implies (#[trigger] cells.drop_last()[i]).state
            == CellState::Hidden by {
            assert(cells[i].state == CellState::Hidden);
        }
        lemma_all_hidden_counts(cells.drop_last());
        assert(cells[cells.len() - 1].state == CellState::Hidden);
    }
}

/// Cells with the same states, one for one, are counted alike.
pub proof fn lemma_same_states_count(a: Seq<Cell>, b: Seq<Cell>, st: CellState)
    requires
        a.len() == b.len(),
        forall|i: int| 0 <= i < a.len() ==> (#[trigger] b[i]).state == a[i].state,
    ensures
        count_state(a, st) == count_state(b, st),
    decreases a.len(),
{
    reveal(Seq::filter);
    if a.len() > 0 {
        assert forall|i: int| 0 <= i < a.len() - 1 implies (#[trigger] b.drop_last()[i]).state
            == a.drop_last()[i].state by {
            assert(b[i].state == a[i].state);
        }
        lemma_same_states_count(a.drop_last(), b.drop_last(), st);
        assert(b[a.len() - 1].state == a[a.len() - 1].state);
    }
}

/// The number of mines among `ids` depends only on which cells are mines.
pub proof fn lemma_count_mines_same(a: Seq<Cell>, b: Seq<Cell>, ids: Seq<usize>)
    requires
        a.len() == b.len(),
        forall|j: int| 0 <= j < a.len() ==> (#[trigger] a[j]).is_mine == b[j].is_mine,
    ensures
        count_mines(a, ids) == count_mines(b, ids),
    decreases ids.len(),
{
    reveal(Seq::filter);
    if ids.len() > 0 {
        lemma_count_mines_same(a, b, ids.drop_last());
        let j = ids.last();
        if j < a.len() {
            assert(a[j as int].is_mine == b[j as int].is_mine);
        }
    }
}

/// Without a mine on the board, no list holds one.
pub proof fn lemma_count_mines_none(cells: Seq<Cell>, ids: Seq<usize>)
    requires
        forall|j: int| 0 <= j < cells.len() ==> !(#[trigger] cells[j]).is_mine,
    ensures
        count_mines(cells, ids) == 0,
    decreases ids.len(),
{
    reveal(Seq::filter);
    if ids.len() > 0 {
        lemma_count_mines_none(cells, ids.drop_last());
    }
}

/// Cells with the same graph, mines and counts as well-formed cells with
/// mines placed are well formed.
pub proof fn lemma_same_mines_wf(a: Seq<Cell>, b: Seq<Cell>)
    requires
        cells_wf(a, true),
        same_mines(a, b),
    ensures
        cells_wf(b, true),
{
    assert(neighbor_lists(b) =~= neighbor_lists(a));
    assert forall|j: int| 0 <= j < b.len() implies (#[trigger] b[j]).id == j by {
        assert(a[j].id == j);
    }
    assert forall|j: int| 0 <= j < b.len() && !(#[trigger] b[j]).is_mine implies
        b[j].adjacent_mines == mine_neighbors(b, j) by {
        assert(!a[j].is_mine);
        assert forall|w: int| 0 <= w < a.len() implies (#[trigger] a[w]).is_mine
            == b[w].is_mine by {}
        lemma_count_mines_same(a, b, a[j].neighbor_ids@);
    }
}

/// A change of one cell's state keeps the board well formed, as long as no
/// cell is revealed before mines are placed.
pub proof fn lemma_with_state_wf(cells: Seq<Cell>, placed: bool, i: int, st: CellState)
    requires
        cells_wf(cells, placed),
        0 <= i < cells.len(),
        placed || st != CellState::Revealed,
    ensures
        cells_wf(with_state(cells, i, st), placed),
        same_mines(cells, with_state(cells, i, st)),
{
    let after = with_state(cells, i, st);
    assert(neighbor_lists(after) =~= neighbor_lists(cells));
    assert forall|j: int| 0 <= j < after.len() && !(#[trigger] after[j]).is_mine implies
        after[j].adjacent_mines == mine_neighbors(after, j) by {
        assert(!cells[j].is_mine);
        lemma_count_mines_same(cells, after, cells[j].neighbor_ids@);
    }
    assert forall|j: int| 0 <= j < after.len() implies (#[trigger] after[j]).id == j by {
        assert(cells[j].id == j);
    }
    if !placed {
        assert forall|j: int| 0 <= j < after.len() implies !(#[trigger] after[j]).is_mine
            && after[j].state != CellState::Revealed by {
            assert(!cells[j].is_mine && cells[j].state != CellState::Revealed);
        }
    }
}

// ---------------------------------------------------------------------------
// Checking an adjacency
// ---------------------------------------------------------------------------

/// Whether `list` holds `x`.
pub fn list_contains(list: &Vec<usize>, x: usize) -> (found: bool)
    ensures
        found == list@.contains(x),
{
    let mut k: usize = 0;
    while k < list.len()
        invariant
            k <= list.len(),
            forall|j: int| 0 <= j < k ==> list@[j] != x,
        decreases list.len() - k,
    {
        if list[k] == x {
            return true;
        }
        k += 1;
    }
    false
}

/// Whether no value stands twice in `list`.
pub fn list_is_duplicate_free(list: &Vec<usize>) -> (free: bool)
    ensures
        free == list@.no_duplicates(),
{
    let mut k: usize = 0;
    while k < list.len()
        invariant
            k <= list.len(),
            forall|a: int, b: int| 0 <= a < b < k ==> list@[a] != list@[b],
        decreases list.len() - k,
    {
        let mut j: usize = 0;
        while j < k
            invariant
                j <= k < list.len(),
                forall|a: int| 0 <= a < j ==> list@[a] != list@[k as int],
            decreases k - j,
        {
            if list[j] == list[k] {
                return false;
            }
            j += 1;
        }
        k += 1;
    }
    true
}

/// Whether the neighbour list of `i` is valid within `adjacency`.
fn check_neighbors(adjacency: &Vec<Vec<usize>>, i: usize) -> (ok: bool)
    requires
        i < adjacency.len(),
    ensures
        ok == valid_neighbors(lists_of(adjacency@), i as int),
{
    let ghost adj = lists_of(adjacency@);
    let list = &adjacency[i];
    assert(adj[i as int] == list@);
    if list.len() > MAX_NEIGHBORS || !list_is_duplicate_free(list) {
        return false;
    }
    let mut k: usize = 0;
    while k < list.len()
        invariant
            k <= list.len(),
            i < adjacency.len(),
            adj == lists_of(adjacency@),
            adj[i as int] == list@,
            forall|j: int| 0 <= j < k ==> valid_link(adj, i as int, #[trigger] list@[j]),
        decreases list.len() - k,
    {
        let j = list[k];
        if j >= adjacency.len() || j == i {
            assert(!valid_link(adj, i as int, adj[i as int][k as int]));
            return false;
        }
        assert(adj[j as int] == adjacency@[j as int]@);
        if !list_contains(&adjacency[j], i) {
            assert(!valid_link(adj, i as int, adj[i as int][k as int]));
            return false;
        }
        k += 1;
    }
    true
}

/// Whether the lists form a valid adjacency: symmetric, without loops and
/// double edges, within the board, no list longer than `MAX_NEIGHBORS`.
pub fn is_valid_adjacency(adjacency: &Vec<Vec<usize>>) -> (ok: bool)
    ensures
        ok == valid_adjacency(lists_of(adjacency@)),
{
    let mut i: usize = 0;
    while i < adjacency.len()
        invariant
            i <= adjacency.len(),
            forall|j: int| 0 <= j < i ==> #[trigger] valid_neighbors(lists_of(adjacency@), j),
        decreases adjacency.len() - i,
    {
        if !check_neighbors(adjacency, i) {
            return false;
        }
        i += 1;
    }
    true
}

/// A copy of `list`.
fn copy_ids(list: &Vec<usize>) -> (copy: Vec<usize>)
    ensures
        copy@ == list@,
{
    let mut copy: Vec<usize> = Vec::new();
    let mut k: usize = 0;
    while k < list.len()
        invariant
            k <= list.len(),
            copy@ == list@.take(k as int),
        decreases list.len() - k,
    {
        copy.push(list[k]);
        assert(list@.take(k + 1) == list@.take(k as int).push(list@[k as int]));
        k += 1;
    }
    assert(list@.take(list.len() as int) == list@);
    copy
}

impl Board {
    /// Whether mines have been placed on this board.
    pub closed spec fn placed(&self) -> bool {
        self.mines_placed
    }

    /// Well-formedness of the board: see [`cells_wf`].
    pub open spec fn wf(&self) -> bool {
        cells_wf(self@, self.placed())
    }

    /// Builds the board of a level from the neighbour lists of its cells.
    ///
    /// Returns the board exactly when the lists form a valid adjacency. Cell
    /// `i` then has id `i` and the `i`-th list; every cell is hidden, none
    /// is a mine, and no mines are placed yet.
    pub fn new(adjacency: &Vec<Vec<usize>>) -> (made: Option<Board>)
        ensures
            made.is_some() == valid_adjacency(lists_of(adjacency@)),
            match made {
                Some(board) => {
                    &&& board.wf()
                    &&& !board.placed()
                    &&& board@.len() == adjacency@.len()
                    &&& forall|i: int|
                        0 <= i < board@.len() ==> is_fresh_cell(
                            #[trigger] board@[i],
                            i,
                            adjacency@[i]@,
                        )
                },
                None => true,
            },
    {
        if !is_valid_adjacency(adjacency) {
            return None;
        }
        let mut cells: Vec<Cell> = Vec::new();
        let mut i: usize = 0;
        while i < adjacency.len()
            invariant
                i <= adjacency.len(),
                cells@.len() == i,
                forall|j: int| 0 <= j < i ==> is_fresh_cell(#[trigger] cells@[j], j, adjacency@[j]@),
            decreases adjacency.len() - i,
        {
            cells.push(
                Cell {
                    id: i,
                    neighbor_ids: copy_ids(&adjacency[i]),
                    is_mine: false,
                    state: CellState::Hidden,
                    adjacent_mines: 0,
                },
            );
            i += 1;
        }
        proof {
            assert(neighbor_lists(cells@) =~= lists_of(adjacency@));
            assert forall|j: int| 0 <= j < cells@.len() && !(#[trigger] cells@[j]).is_mine implies
                cells@[j].adjacent_mines == mine_neighbors(cells@, j) by {
                lemma_count_mines_none(cells@, cells@[j].neighbor_ids@);
            }
        }
        Some(Board { cells, mines_placed: false })
    }

    /// The number of cells.
    pub fn len(&self) -> (n: usize)
        ensures
            n == self@.len(),
    {
        self.cells.len()
    }

    /// The cells, in id order.
    pub fn cells(&self) -> (cells: &Vec<Cell>)
        ensures
            cells@ == self@,
    {
        &self.cells
    }

    /// The cell with this id, if the board has one.
    pub fn cell(&self, id: usize) -> (found: Option<&Cell>)
        ensures
            found.is_some() == (id < self@.len()),
            id < self@.len() ==> *found.unwrap() == self@[id as int],
    {
        if id < self.cells.len() {
            Some(&self.cells[id])
        } else {
            None
        }
    }

    /// The neighbour ids of cell `id`; none for an id off the board.
    pub fn neighbors(&self, id: usize) -> (found: Option<&Vec<usize>>)
        ensures
            found.is_some() == (id < self@.len()),
            id < self@.len() ==> found.unwrap()@ == self@[id as int].neighbor_ids@,
    {
        if id < self.cells.len() {
            Some(&self.cells[id].neighbor_ids)
        } else {
            None
        }
    }

    /// Whether mines have been placed on this board.
    pub fn mines_placed(&self) -> (placed: bool)
        ensures
            placed == self.placed(),
    {
        self.mines_placed
    }

    /// The number of cells in state `st`.
    pub fn count_in_state(&self, st: CellState) -> (count: usize)
        ensures
            count == count_state(self@, st),
    {
        let mut count: usize = 0;
        let mut i: usize = 0;
        proof {
            reveal(Seq::filter);
        }
        while i < self.cells.len()
            invariant
                i <= self.cells.len(),
                count == count_state(self.cells@.take(i as int), st),
                count <= i,
            decreases self.cells.len() - i,
        {
            proof {
                reveal(Seq::filter);
                let head = self.cells@.take(i + 1);
                assert(head.drop_last() == self.cells@.take(i as int));
                assert(head.last() == self.cells@[i as int]);
            }
            if self.cells[i].state == st {
                count += 1;
            }
            i += 1;
        }
        assert(self.cells@.take(self.cells.len() as int) == self.cells@);
        count
    }

    /// Whether the session's counters agree with this board.
    pub fn is_in_step(&self, session: &GameSession) -> (ok: bool)
        ensures
            ok == in_step(self@, *session),
    {
        session.total_cells == self.cells.len() && session.cells_revealed == self.count_in_state(
            CellState::Revealed,
        ) && session.flags_placed == self.count_in_state(CellState::Flagged)
    }

    /// Sets the state of cell `i`.
    pub(crate) fn set_state(&mut self, i: usize, st: CellState)
        requires
            i < old(self)@.len(),
        ensures
            final(self)@ == with_state(old(self)@, i as int, st),
            final(self).placed() == old(self).placed(),
    {
        self.cells[i].state = st;
        assert(self.cells@ =~= with_state(old(self)@, i as int, st));
    }

    /// Sets or clears the mine of cell `i`.
    pub(crate) fn set_mine(&mut self, i: usize, is_mine: bool)
        requires
            i < old(self)@.len(),
        ensures
            final(self)@ == old(self)@.update(
                i as int,
                Cell {
                    id: old(self)@[i as int].id,
                    neighbor_ids: old(self)@[i as int].neighbor_ids,
                    is_mine,
                    state: old(self)@[i as int].state,
                    adjacent_mines: old(self)@[i as int].adjacent_mines,
                },
            ),
            final(self).placed() == old(self).placed(),
    {
        self.cells[i].is_mine = is_mine;
        assert(self.cells@ =~= old(self)@.update(i as int, self.cells@[i as int]));
    }

    /// Sets the adjacent-mine count of cell `i`.
    pub(crate) fn set_adjacent_mines(&mut self, i: usize, count: u8)
        requires
            i < old(self)@.len(),
        ensures
            final(self)@ == old(self)@.update(
                i as int,
                Cell {
                    id: old(self)@[i as int].id,
                    neighbor_ids: old(self)@[i as int].neighbor_ids,
                    is_mine: old(self)@[i as int].is_mine,
                    state: old(self)@[i as int].state,
                    adjacent_mines: count,
                },
            ),
            final(self).placed() == old(self).placed(),
    {
        self.cells[i].adjacent_mines = count;
        assert(self.cells@ =~= old(self)@.update(i as int, self.cells@[i as int]));
    }

    /// Records that mines have been placed.
    pub(crate) fn set_mines_placed(&mut self)
        ensures
            final(self)@ == old(self)@,
            final(self).placed(),
    {
        self.mines_placed = true;
    }

    /// Toggles the flag of cell `id` and keeps the session's flag counter.
    ///
    /// A hidden cell becomes flagged and the counter grows by one; a flagged
    /// cell becomes hidden and the counter falls by one. On a revealed cell,
    /// or an id that the board does not have, nothing changes.
    pub fn toggle_flag(&mut self, session: &mut GameSession, id: usize)
        requires
            old(self).wf(),
            in_step(old(self)@, *old(session)),
        ensures
            final(self)@ == flag_toggled(old(self)@, id),
            final(self).placed() == old(self).placed(),
            final(session).flags_placed == flags_after_toggle(
                old(self)@,
                old(session).flags_placed as int,
                id,
            ),
            *final(session) == (GameSession {
                flags_placed: final(session).flags_placed,
                ..*old(session)
            }),
            final(self).wf(),
            in_step(final(self)@, *final(session)),
    {
        if id >= self.cells.len() {
            return ;
        }
        let state = self.cells[id].state;
        proof {
            lemma_count_state_bound(self@, CellState::Flagged);
        }
        if state == CellState::Hidden {
            proof {
                let after = with_state(self@, id as int, CellState::Flagged);
                lemma_with_state_wf(self@, self.placed(), id as int, CellState::Flagged);
                lemma_count_state_update(self@, id as int, after[id as int], CellState::Flagged);
                lemma_count_state_update(self@, id as int, after[id as int], CellState::Revealed);
            }
            self.set_state(id, CellState::Flagged);
            session.flags_placed += 1;
        } else if state == CellState::Flagged {
            proof {
                let after = with_state(self@, id as int, CellState::Hidden);
                lemma_with_state_wf(self@, self.placed(), id as int, CellState::Hidden);
                lemma_count_state_update(self@, id as int, after[id as int], CellState::Flagged);
                lemma_count_state_update(self@, id as int, after[id as int], CellState::Revealed);
            }
            self.set_state(id, CellState::Hidden);
            session.flags_placed -= 1;
        }
    }
}

} // verus!
