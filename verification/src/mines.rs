//! Deferred mine placement: the safe zone round the first revealed cell, the
//! pool of candidate cells, and the counts of adjacent mines.

use crate::board::{
    cells_wf,
    in_step,
    is_mine_at,
    lemma_count_mines_same,
    lemma_mine_total_update,
    lemma_same_mines_total,
    lemma_same_states_count,
    list_contains,
    mine_neighbors,
    mine_total,
    neighbor_lists,
    same_graph,
    valid_neighbors,
    Board,
    Cell,
    CellState,
    MAX_NEIGHBORS,
};
use crate::session::{mine_count, mine_count_spec, GameSession};
use rand::seq::SliceRandom;
use vstd::prelude::*;

verus! {

/// The ids `0, 1, .., n - 1`.
pub open spec fn all_ids(n: nat) -> Seq<usize> {
    Seq::new(n, |i: int| i as usize)
}

/// The safe zone of `anchor`: the anchor and its neighbours.
pub open spec fn in_safe_zone(cells: Seq<Cell>, anchor: usize, id: usize) -> bool {
    id == anchor || cells[anchor as int].neighbor_ids@.contains(id)
}

/// The predicate "this id lies outside the safe zone of `anchor`".
pub open spec fn outside_safe_zone(cells: Seq<Cell>, anchor: usize) -> spec_fn(usize) -> bool {
    |id: usize| !in_safe_zone(cells, anchor, id)
}

/// The cells that may receive a mine, in id order: all but the safe zone.
pub open spec fn candidate_pool(cells: Seq<Cell>, anchor: usize) -> Seq<usize> {
    all_ids(cells.len()).filter(outside_safe_zone(cells, anchor))
}

/// `order` holds the entries of `pool`, each as often as `pool` does, in
/// some order.
pub open spec fn is_shuffle_of(order: Seq<usize>, pool: Seq<usize>) -> bool {
    order.to_multiset() == pool.to_multiset()
}

/// The ids that receive a mine: the first `count` entries of `order`, or all
/// of them where it has fewer.
pub open spec fn mined_ids(order: Seq<usize>, count: int) -> Seq<usize> {
    if 0 <= count <= order.len() {
        order.take(count)
    } else {
        order
    }
}

/// `after` is `before` with mines placed on the first `count` cells of
/// `order`: those cells and no others are mines, every cell without a mine
/// counts its mine neighbours, and nothing else has changed.
pub open spec fn mines_placed_by(
    before: Seq<Cell>,
    after: Seq<Cell>,
    order: Seq<usize>,
    count: int,
) -> bool {
    &&& same_graph(before, after)
    &&& forall|i: int| 0 <= i < after.len() ==> (#[trigger] after[i]).state == before[i].state
    &&& forall|i: int|
        0 <= i < after.len() ==> (#[trigger] after[i]).is_mine == mined_ids(order, count).contains(
            i as usize,
        )
    &&& forall|i: int|
        0 <= i < after.len() ==> (#[trigger] after[i]).adjacent_mines == if after[i].is_mine {
            before[i].adjacent_mines as int
        } else {
            mine_neighbors(after, i) as int
        }
}

/// The session after mine placement: `total_mines` is the mine count of the
/// level, nothing else has changed.
pub open spec fn session_with_mines(s: GameSession) -> GameSession {
    GameSession { total_mines: mine_count_spec(s.total_cells, s.level) as usize, ..s }
}

/// A shuffle holds exactly the members of the pool.
pub proof fn lemma_shuffle_members(order: Seq<usize>, pool: Seq<usize>, x: usize)
    requires
        is_shuffle_of(order, pool),
    ensures
        order.contains(x) == pool.contains(x),
{
    vstd::seq_lib::to_multiset_contains(order, x);
    vstd::seq_lib::to_multiset_contains(pool, x);
}

/// The candidate pool holds the cells of the board outside the safe zone,
/// each once.
pub proof fn lemma_pool_members(cells: Seq<Cell>, anchor: usize)
    requires
        cells.len() <= usize::MAX,
    ensures
        forall|x: usize|
            #[trigger] candidate_pool(cells, anchor).contains(x) <==> x < cells.len()
                && !in_safe_zone(cells, anchor, x),
        candidate_pool(cells, anchor).no_duplicates(),
{
    let ids = all_ids(cells.len());
    let pred = outside_safe_zone(cells, anchor);
    let pool = candidate_pool(cells, anchor);
    assert forall|x: usize| #[trigger] pool.contains(x) implies x < cells.len() && !in_safe_zone(
        cells,
        anchor,
        x,
    ) by {
        ids.lemma_filter_contains_rev(pred, x);
        let k = choose|k: int| 0 <= k < pool.len() && pool[k] == x;
        ids.lemma_filter_pred(pred, k);
    }
    assert forall|x: usize| x < cells.len() && !in_safe_zone(cells, anchor, x) implies
        #[trigger] pool.contains(x) by {
        assert(ids[x as int] == x);
        ids.lemma_filter_contains(pred, x as int);
    }
    assert forall|i: int, j: int| 0 <= i < ids.len() && 0 <= j < ids.len() && i != j implies ids[i]
        != ids[j] by {}
    lemma_filter_keeps_distinct(ids, pred);
}

/// Filtering a sequence without duplicates leaves none.
pub proof fn lemma_filter_keeps_distinct(s: Seq<usize>, pred: spec_fn(usize) -> bool)
    requires
        s.no_duplicates(),
    ensures
        s.filter(pred).no_duplicates(),
    decreases s.len(),
{
    reveal(Seq::filter);
    if s.len() > 0 {
        let head = s.drop_last();
        lemma_filter_keeps_distinct(head, pred);
        if pred(s.last()) {
            let kept = head.filter(pred);
            assert forall|i: int, j: int| 0 <= i < j < kept.len() + 1 implies kept.push(
                s.last(),
            )[i] != kept.push(s.last())[j] by {
                if j == kept.len() {
                    assert(kept.contains(kept[i]));
                    head.lemma_filter_contains_rev(pred, kept[i]);
                    let k = choose|k: int| 0 <= k < head.len() && head[k] == kept[i];
                    assert(s[k] == kept[i]);
                }
            }
        }
    }
}

/// A shuffle of a pool without duplicates has none either.
pub proof fn lemma_shuffle_distinct(order: Seq<usize>, pool: Seq<usize>)
    requires
        is_shuffle_of(order, pool),
        pool.no_duplicates(),
    ensures
        order.no_duplicates(),
        order.len() == pool.len(),
{
    pool.lemma_multiset_has_no_duplicates();
    order.lemma_multiset_has_no_duplicates_conv();
    vstd::seq_lib::to_multiset_len(order);
    vstd::seq_lib::to_multiset_len(pool);
}

/// A list without duplicates, as long as the pool and made of its members,
/// is a shuffle of the pool.
pub proof fn lemma_members_make_shuffle(order: Seq<usize>, pool: Seq<usize>)
    requires
        order.no_duplicates(),
        pool.no_duplicates(),
        order.len() == pool.len(),
        forall|k: int| 0 <= k < order.len() ==> pool.contains(#[trigger] order[k]),
    ensures
        is_shuffle_of(order, pool),
{
    broadcast use vstd::seq_lib::seq_to_set_is_finite;

    order.unique_seq_to_set();
    pool.unique_seq_to_set();
    assert(order.to_set().subset_of(pool.to_set())) by {
        assert forall|x: usize| order.to_set().contains(x) implies pool.to_set().contains(x) by {
            let k = choose|k: int| 0 <= k < order.len() && order[k] == x;
            assert(pool.contains(order[k]));
        }
    }
    vstd::set_lib::lemma_subset_equality(order.to_set(), pool.to_set());
    order.lemma_multiset_has_no_duplicates();
    pool.lemma_multiset_has_no_duplicates();
    assert forall|x: usize| order.to_multiset().count(x) == pool.to_multiset().count(x) by {
        vstd::seq_lib::to_multiset_contains(order, x);
        vstd::seq_lib::to_multiset_contains(pool, x);
        assert(order.to_set().contains(x) == pool.to_set().contains(x));
        assert(order.contains(x) == pool.contains(x));
    }
    assert(order.to_multiset() =~= pool.to_multiset());
}

/// Mines placed from a shuffle of the candidate pool leave the safe zone
/// free of mines.
pub proof fn lemma_safe_zone_is_free(
    before: Seq<Cell>,
    after: Seq<Cell>,
    anchor: usize,
    order: Seq<usize>,
    count: int,
)
    requires
        before.len() <= usize::MAX,
        is_shuffle_of(order, candidate_pool(before, anchor)),
        mines_placed_by(before, after, order, count),
    ensures
        forall|id: usize|
            id < after.len() && in_safe_zone(before, anchor, id) ==> !(#[trigger] after[id as int]).is_mine,
{
    lemma_pool_members(before, anchor);
    assert forall|id: usize| id < after.len() && in_safe_zone(before, anchor, id) implies !(
    #[trigger] after[id as int]).is_mine by {
        if after[id as int].is_mine {
            let mined = mined_ids(order, count);
            assert(mined.contains(id));
            let k = choose|k: int| 0 <= k < mined.len() && mined[k] == id;
            assert(order[k] == id);
            lemma_shuffle_members(order, candidate_pool(before, anchor), id);
        }
    }
}

/// A board without a mine holds none.
pub proof fn lemma_no_mines_total(cells: Seq<Cell>)
    requires
        forall|i: int| 0 <= i < cells.len() ==> !(#[trigger] cells[i]).is_mine,
    ensures
        mine_total(cells) == 0,
    decreases cells.len(),
{
    reveal(Seq::filter);
    if cells.len() > 0 {
        assert forall|i: int| 0 <= i < cells.len() - 1 implies !(#[trigger] cells.drop_last()[i]).is_mine by {
            assert(!cells[i].is_mine);
        }
        lemma_no_mines_total(cells.drop_last());
        assert(!cells[cells.len() - 1].is_mine);
    }
}

/// Mines placed on well-formed cells without mines leave them well formed.
pub proof fn lemma_placement_wf(
    before: Seq<Cell>,
    after: Seq<Cell>,
    order: Seq<usize>,
    count: int,
)
    requires
        cells_wf(before, false),
        mines_placed_by(before, after, order, count),
    ensures
        cells_wf(after, true),
{
    assert(neighbor_lists(after) =~= neighbor_lists(before));
    assert forall|j: int| 0 <= j < after.len() implies (#[trigger] after[j]).id == j by {
        assert(before[j].id == j);
    }
}

/// Reorders `ids` at random, with the thread's generator.
///
/// Calls `rand::seq::SliceRandom::shuffle` on the vector's slice with
/// `rand::thread_rng()`. The contract claims what the shuffle's source shows:
/// it only swaps entries, so the vector afterwards holds the same ids as
/// before, each as often. Nothing is claimed of the order. The generator is
/// seeded by the operating system and fails only where that source of
/// randomness does.
#[verifier::external_body]
fn shuffle_ids(ids: &mut Vec<usize>)
    ensures
        is_shuffle_of(final(ids)@, old(ids)@),
{
    ids.shuffle(&mut rand::thread_rng());
}

/// Lists the cells that may receive a mine when `anchor` is the first
/// revealed cell: every cell but the anchor and its neighbours, in id order.
pub fn candidate_cells(board: &Board, anchor: usize) -> (pool: Vec<usize>)
    requires
        anchor < board@.len(),
    ensures
        pool@ == candidate_pool(board@, anchor),
{
    let cells = board.cells();
    let safe = &cells[anchor].neighbor_ids;
    let ghost ids = all_ids(cells@.len());
    let ghost pred = outside_safe_zone(board@, anchor);
    let mut pool: Vec<usize> = Vec::new();
    let mut i: usize = 0;
    proof {
        reveal(Seq::filter);
        assert(ids.take(0).filter(pred) =~= Seq::<usize>::empty());
    }
    while i < cells.len()
        invariant
            i <= cells.len(),
            cells@ == board@,
            anchor < cells.len(),
            safe@ == cells@[anchor as int].neighbor_ids@,
            ids == all_ids(cells@.len()),
            pred == outside_safe_zone(board@, anchor),
            pool@ == ids.take(i as int).filter(pred),
        decreases cells.len() - i,
    {
        proof {
            assert(ids.take(i + 1) =~= ids.take(i as int).push(i));
            ids.take(i as int).lemma_filter_push(i, pred);
        }
        if i != anchor && !list_contains(safe, i) {
            pool.push(i);
        }
        i += 1;
    }
    assert(ids.take(cells.len() as int) =~= ids);
    pool
}

/// Whether `order` is the candidate pool of `safe_id` in some order: what
/// [`place_mines`] asks of it.
pub fn is_shuffled_pool(board: &Board, safe_id: usize, order: &Vec<usize>) -> (ok: bool)
    requires
        safe_id < board@.len(),
    ensures
        ok == is_shuffle_of(order@, candidate_pool(board@, safe_id)),
{
    let pool = candidate_cells(board, safe_id);
    let n = board.len();
    let safe = &board.cells()[safe_id].neighbor_ids;
    proof {
        lemma_pool_members(board@, safe_id);
        if is_shuffle_of(order@, pool@) {
            lemma_shuffle_distinct(order@, pool@);
        }
    }
    if order.len() != pool.len() || !crate::board::list_is_duplicate_free(order) {
        return false;
    }
    let mut k: usize = 0;
    while k < order.len()
        invariant
            k <= order.len(),
            n == board@.len(),
            safe_id < n,
            safe@ == board@[safe_id as int].neighbor_ids@,
            pool@ == candidate_pool(board@, safe_id),
            forall|x: usize|
                #[trigger] pool@.contains(x) <==> x < board@.len() && !in_safe_zone(
                    board@,
                    safe_id,
                    x,
                ),
            forall|j: int| 0 <= j < k ==> pool@.contains(#[trigger] order@[j]),
        decreases order.len() - k,
    {
        let id = order[k];
        if id >= n || id == safe_id || list_contains(safe, id) {
            proof {
                assert(!pool@.contains(id));
                if is_shuffle_of(order@, pool@) {
                    assert(order@.contains(order@[k as int]));
                    lemma_shuffle_members(order@, pool@, id);
                }
            }
            return false;
        }
        k += 1;
    }
    proof {
        lemma_members_make_shuffle(order@, pool@);
    }
    true
}

/// Counts the neighbours of cell `id` that are mines.
pub fn count_mine_neighbors(board: &Board, id: usize) -> (count: u8)
    requires
        id < board@.len(),
        board@[id as int].neighbor_ids@.len() <= MAX_NEIGHBORS,
    ensures
        count == mine_neighbors(board@, id as int),
{
    let cells = board.cells();
    let list = &cells[id].neighbor_ids;
    let ghost pred = is_mine_at(cells@);
    let mut count: u8 = 0;
    let mut k: usize = 0;
    proof {
        reveal(Seq::filter);
        assert(list@.take(0).filter(pred) =~= Seq::<usize>::empty());
    }
    while k < list.len()
        invariant
            k <= list.len() <= MAX_NEIGHBORS,
            cells@ == board@,
            pred == is_mine_at(cells@),
            count == list@.take(k as int).filter(pred).len(),
            count <= k,
        decreases list.len() - k,
    {
        let j = list[k];
        proof {
            assert(list@.take(k + 1) =~= list@.take(k as int).push(j));
            list@.take(k as int).lemma_filter_push(j, pred);
        }
        if j < cells.len() && cells[j].is_mine {
            count += 1;
        }
        k += 1;
    }
    assert(list@.take(list.len() as int) =~= list@);
    count
}

/// Places the mines of a level, given the shuffled candidate pool.
///
/// The mine count of the level is recorded in the session. The first that
/// many cells of `order` become mines (all of them where `order` is
/// shorter), and every cell without a mine then counts its mine neighbours.
/// The safe zone of `safe_id` stays free of mines.
pub fn place_mines(board: &mut Board, safe_id: usize, session: &mut GameSession, order: &Vec<usize>)
    requires
        old(board).wf(),
        !old(board).placed(),
        safe_id < old(board)@.len(),
        is_shuffle_of(order@, candidate_pool(old(board)@, safe_id)),
    ensures
        final(board).wf(),
        final(board).placed(),
        mines_placed_by(
            old(board)@,
            final(board)@,
            order@,
            mine_count_spec(old(session).total_cells, old(session).level),
        ),
        forall|id: usize|
            id < final(board)@.len() && in_safe_zone(old(board)@, safe_id, id) ==> !(
            #[trigger] final(board)@[id as int]).is_mine,
        mine_total(final(board)@) == mined_ids(
            order@,
            mine_count_spec(old(session).total_cells, old(session).level),
        ).len(),
        *final(session) == session_with_mines(*old(session)),
        in_step(old(board)@, *old(session)) ==> in_step(final(board)@, *final(session)),
{
    let ghost before = board@;
    let n = board.len();
    let count = mine_count(session.total_cells, session.level);
    session.total_mines = count;
    let take = if count <= order.len() {
        count
    } else {
        order.len()
    };
    proof {
        lemma_pool_members(before, safe_id);
        assert forall|j: int| 0 <= j < order@.len() implies (#[trigger] order@[j]) < n by {
            assert(order@.contains(order@[j]));
            lemma_shuffle_members(order@, candidate_pool(before, safe_id), order@[j]);
        }
        assert(mined_ids(order@, count as int) =~= order@.take(take as int));
        lemma_shuffle_distinct(order@, candidate_pool(before, safe_id));
        lemma_no_mines_total(before);
    }
    let mut k: usize = 0;
    while k < take
        invariant
            k <= take <= order.len(),
            n == before.len(),
            !board.placed(),
            same_graph(before, board@),
            forall|j: int| 0 <= j < order@.len() ==> (#[trigger] order@[j]) < n,
            forall|i: int|
                0 <= i < n ==> (#[trigger] board@[i]).state == before[i].state
                    && board@[i].adjacent_mines == before[i].adjacent_mines,
            forall|i: int|
                0 <= i < n ==> (#[trigger] board@[i]).is_mine == order@.take(k as int).contains(
                    i as usize,
                ),
            order@.no_duplicates(),
            mine_total(board@) == k,
        decreases take - k,
    {
        let id = order[k];
        let ghost prev = board@;
        board.set_mine(id, true);
        proof {
            assert(!prev[id as int].is_mine) by {
                if order@.take(k as int).contains(id) {
                    let w = choose|w: int|
                        0 <= w < order@.take(k as int).len() && order@.take(k as int)[w] == id;
                    assert(order@[w] == order@[k as int]);
                }
            }
            lemma_mine_total_update(prev, id as int, board@[id as int]);
            assert(order@.take(k + 1) =~= order@.take(k as int).push(id));
            assert forall|i: int| 0 <= i < n implies (#[trigger] board@[i]).is_mine == order@.take(
                k + 1,
            ).contains(i as usize) by {
                let shorter = order@.take(k as int);
                let longer = order@.take(k + 1);
                assert(prev[i].is_mine == shorter.contains(i as usize));
                if i == id {
                    assert(longer[k as int] == id);
                } else if shorter.contains(i as usize) {
                    let w = choose|w: int| 0 <= w < shorter.len() && shorter[w] == i as usize;
                    assert(longer[w] == i as usize);
                } else if longer.contains(i as usize) {
                    let w = choose|w: int| 0 <= w < longer.len() && longer[w] == i as usize;
                    assert(shorter[w] == i as usize);
                }
            }
            assert forall|i: int| 0 <= i < n implies (#[trigger] board@[i]).id == before[i].id
                && board@[i].neighbor_ids == before[i].neighbor_ids by {
                assert(prev[i].id == before[i].id);
            }
            assert forall|i: int| 0 <= i < n implies (#[trigger] board@[i]).state
                == before[i].state && board@[i].adjacent_mines == before[i].adjacent_mines by {
                assert(prev[i].state == before[i].state);
            }
        }
        k += 1;
    }
    let ghost mined = board@;
    let mut i: usize = 0;
    while i < n
        invariant
            i <= n,
            n == before.len(),
            !board.placed(),
            cells_wf(before, false),
            same_graph(before, board@),
            same_graph(mined, board@),
            forall|j: int|
                0 <= j < n ==> (#[trigger] board@[j]).state == before[j].state && board@[j].is_mine
                    == mined[j].is_mine,
            forall|j: int|
                0 <= j < n && (#[trigger] board@[j]).is_mine ==> board@[j].adjacent_mines
                    == before[j].adjacent_mines,
            forall|j: int|
                0 <= j < i && !(#[trigger] board@[j]).is_mine ==> board@[j].adjacent_mines
                    == mine_neighbors(board@, j),
        decreases n - i,
    {
        let is_mine = board.cells()[i].is_mine;
        if !is_mine {
            proof {
                assert(valid_neighbors(neighbor_lists(before), i as int));
                assert(before[i as int].id == board@[i as int].id);
            }
            let ghost prev = board@;
            let count = count_mine_neighbors(board, i);
            board.set_adjacent_mines(i, count);
            proof {
                assert forall|j: int| 0 <= j < n implies (#[trigger] board@[j]).id == prev[j].id
                    && board@[j].neighbor_ids == prev[j].neighbor_ids && board@[j].is_mine
                    == prev[j].is_mine && board@[j].state == prev[j].state by {}
                assert forall|j: int| 0 <= j < n implies (#[trigger] board@[j]).id == before[j].id
                    && board@[j].neighbor_ids == before[j].neighbor_ids by {
                    assert(prev[j].id == before[j].id);
                }
                assert forall|j: int| 0 <= j < n implies (#[trigger] board@[j]).id == mined[j].id
                    && board@[j].neighbor_ids == mined[j].neighbor_ids by {
                    assert(prev[j].id == mined[j].id);
                }
                assert forall|j: int| 0 <= j < n implies (#[trigger] board@[j]).state
                    == before[j].state && board@[j].is_mine == mined[j].is_mine by {
                    assert(prev[j].state == before[j].state);
                }
                assert forall|j: int| 0 <= j < n && (#[trigger] board@[j]).is_mine implies
                    board@[j].adjacent_mines == before[j].adjacent_mines by {
                    assert(prev[j].is_mine);
                }
                assert forall|j: int| 0 <= j < i + 1 && !(#[trigger] board@[j]).is_mine implies
                    board@[j].adjacent_mines == mine_neighbors(board@, j) by {
                    assert(!prev[j].is_mine);
                    lemma_count_mines_same(prev, board@, prev[j].neighbor_ids@);
                }
            }
        }
        i += 1;
    }
    board.set_mines_placed();
    proof {
        let after = board@;
        lemma_same_mines_total(mined, after);
        assert(neighbor_lists(after) =~= neighbor_lists(before));
        assert forall|j: int| 0 <= j < after.len() implies (#[trigger] after[j]).id == j by {
            assert(before[j].id == j);
        }
        assert forall|j: int| 0 <= j < after.len() implies (#[trigger] after[j]).is_mine
            == mined_ids(order@, count as int).contains(j as usize) by {
            assert(after[j].is_mine == mined[j].is_mine);
        }
        lemma_safe_zone_is_free(before, after, safe_id, order@, count as int);
        lemma_same_states_count(before, after, CellState::Revealed);
        lemma_same_states_count(before, after, CellState::Flagged);
    }
}

/// Places the mines of a level at random, with the safe zone round
/// `safe_id`.
///
/// The candidate pool is shuffled by the thread's random generator and
/// handed to [`place_mines`]. Whatever the shuffle gave, the placement is
/// that of some shuffle of the pool: the safe zone is free, the session
/// records the mine count, and each cell without a mine counts its mine
/// neighbours.
pub fn initialize_mines(board: &mut Board, safe_id: usize, session: &mut GameSession)
    requires
        old(board).wf(),
        !old(board).placed(),
        safe_id < old(board)@.len(),
    ensures
        final(board).wf(),
        final(board).placed(),
        exists|order: Seq<usize>|
            is_shuffle_of(order, candidate_pool(old(board)@, safe_id)) && #[trigger] mines_placed_by(
                old(board)@,
                final(board)@,
                order,
                mine_count_spec(old(session).total_cells, old(session).level),
            ),
        forall|id: usize|
            id < final(board)@.len() && in_safe_zone(old(board)@, safe_id, id) ==> !(
            #[trigger] final(board)@[id as int]).is_mine,
        mine_total(final(board)@) == if mine_count_spec(
            old(session).total_cells,
            old(session).level,
        ) <= candidate_pool(old(board)@, safe_id).len() {
            mine_count_spec(old(session).total_cells, old(session).level)
        } else {
            candidate_pool(old(board)@, safe_id).len() as int
        },
        *final(session) == session_with_mines(*old(session)),
        in_step(old(board)@, *old(session)) ==> in_step(final(board)@, *final(session)),
{
    let n = board.len();
    let mut order = candidate_cells(board, safe_id);
    shuffle_ids(&mut order);
    proof {
        lemma_pool_members(board@, safe_id);
        lemma_shuffle_distinct(order@, candidate_pool(board@, safe_id));
    }
    place_mines(board, safe_id, session, &order);
}

} // verus!
