use vstd::prelude::*;
use crate::automata::AutomataView;
use crate::board::{count, Board};
use crate::color::{CellState, Color, MAX_COOLDOWN};

verus! {

/// The next generation of a well-formed board is a well-formed board of the
/// same size, and holds at each point the next state of the cell there.
pub proof fn lemma_step_wf(board: Board)
    requires
        board.wf(),
    ensures
        board.step().wf(),
        board.step().size() == board.size(),
        forall|x: int, y: int|
            board.contains(x, y) ==> #[trigger] board.step().at(x, y) == board.next_state(x, y),
{
    let next = board.step();
    assert forall|x: int, y: int| next.contains(x, y) implies (#[trigger] next.at(x, y)).wf() by {
        assert(next.at(x, y) == board.next_state(x, y));
        assert(board.at(x, y).wf());
    }
}

/// Any number of generations on, a well-formed board is a well-formed board
/// of the same size.
pub proof fn lemma_generations_wf(board: Board, n: nat)
    requires
        board.wf(),
    ensures
        board.generations(n).wf(),
        board.generations(n).size() == board.size(),
    decreases n,
{
    if n > 0 {
        lemma_generations_wf(board, (n - 1) as nat);
        lemma_step_wf(board.generations((n - 1) as nat));
    }
}

/// The rule of life and death. A cell with three living neighbours lives in
/// the next generation, whatever it was. A cell with two stays what it was.
/// With any other number, fewer than two or more than three, it is dead in
/// the next generation; so a living cell with no or one living neighbour dies.
pub proof fn lemma_rule(board: Board, x: int, y: int)
    requires
        board.wf(),
        board.contains(x, y),
    ensures
        board.live_neighbours(x, y) == 3 ==> board.step().at(x, y).alive,
        board.live_neighbours(x, y) == 2 ==> board.step().at(x, y).alive == board.at(x, y).alive,
        board.live_neighbours(x, y) < 2 ==> !board.step().at(x, y).alive,
        board.live_neighbours(x, y) > 3 ==> !board.step().at(x, y).alive,
        board.live_neighbours(x, y) <= 8,
{
    lemma_step_wf(board);
}

/// The count of living neighbours is taken from the same generation for every
/// cell: it reads the board before the step and nothing of the board after it.
/// Two boards of one size on which the same cells live give each cell the same
/// life in the next generation.
pub proof fn lemma_step_reads_lives_only(a: Board, b: Board, x: int, y: int)
    requires
        a.wf(),
        b.wf(),
        a.size() == b.size(),
        forall|i: int, j: int|
            a.contains(i, j) ==> (#[trigger] a.at(i, j)).alive == b.at(i, j).alive,
        a.contains(x, y),
    ensures
        a.live_neighbours(x, y) == b.live_neighbours(x, y),
        a.step().at(x, y).alive == b.step().at(x, y).alive,
{
    lemma_step_wf(a);
    lemma_step_wf(b);
    assert forall|i: int, j: int| #[trigger] a.live_at(i, j) == b.live_at(i, j) by {
        if a.contains(i, j) {
            assert(a.at(i, j).alive == b.at(i, j).alive);
        }
    }
    assert(a.at(x, y).alive == b.at(x, y).alive);
}

/// The grid does not wrap around. The cell in the corner `(0, 0)` has at
/// most three neighbours, those at `(1, 0)`, `(0, 1)` and `(1, 1)` as far as
/// the grid holds them, and the cells on the far edges are not among them.
pub proof fn lemma_corner_is_clipped(board: Board)
    requires
        board.wf(),
    ensures
        board.live_neighbours(0, 0) == count(board.live_at(1, 0)) + count(board.live_at(0, 1))
            + count(board.live_at(1, 1)),
        board.live_neighbours(0, 0) <= 3,
        board.neighbour_points(0, 0) == board.point_if_inside(1, 0) + board.point_if_inside(0, 1)
            + board.point_if_inside(1, 1),
{
    assert(board.neighbour_points(0, 0) =~= board.point_if_inside(1, 0) + board.point_if_inside(
        0,
        1,
    ) + board.point_if_inside(1, 1));
}

/// Nowhere does a neighbour count reach beyond the grid or further than one
/// step: it is the count of the living among the points of the grid that
/// touch the cell, of which there are at most eight.
pub proof fn lemma_neighbours_are_adjacent(board: Board, x: int, y: int)
    requires
        board.wf(),
    ensures
        board.live_neighbours(x, y) == board.live_among(board.neighbour_points(x, y)),
        board.neighbour_points(x, y).len() <= 8,
        forall|i: int|
            0 <= i < board.neighbour_points(x, y).len() ==> board.touches(
                x,
                y,
                #[trigger] board.neighbour_points(x, y)[i],
            ),
{
    board.lemma_live_neighbours(x, y);
    board.lemma_neighbour_points(x, y);
}

/// A board on which no cell glows and every cell is in the next generation
/// what it is now stays as it is: the next generation is the same board, the
/// step touches nothing, and so it is after any number of generations.
pub proof fn lemma_still_life(board: Board, n: nat)
    requires
        board.wf(),
        forall|x: int, y: int|
            board.contains(x, y) ==> board.next_alive(x, y) == (#[trigger] board.at(x, y)).alive
                && board.at(x, y).trail == 0,
    ensures
        board.step() == board,
        board.changes() == Seq::<(int, int)>::empty(),
        board.generations(n) == board,
    decreases n,
{
    assert(board.step().rows =~~= board.rows) by {
        assert forall|x: int, y: int| board.contains(x, y) implies board.next_state(x, y)
            == board.at(x, y) by {
            assert(board.at(x, y).wf());
        }
    }
    board.lemma_changes_upto(board.size());
    if board.changes().len() > 0 {
        let p = board.changes()[0];
        assert(board.contains(p.0, p.1) && board.is_dirty(p.0, p.1));
        assert(board.at(p.0, p.1).trail == 0);
    }
    assert(board.changes() =~= Seq::<(int, int)>::empty());
    if n > 0 {
        lemma_still_life(board, (n - 1) as nat);
    }
}

/// Whether `(x, y)` is one of the four points of the block of two by two
/// whose upper left corner is `(left, top)`.
pub open spec fn in_block(left: int, top: int, x: int, y: int) -> bool {
    left <= x <= left + 1 && top <= y <= top + 1
}

/// A block of two by two living cells on an otherwise dead board without
/// afterglow is a still life: it is unchanged after any number of
/// generations, and no step touches a cell.
pub proof fn lemma_block_is_still(board: Board, left: int, top: int, n: nat)
    requires
        board.wf(),
        board.contains(left, top),
        board.contains(left + 1, top + 1),
        forall|x: int, y: int|
            board.contains(x, y) ==> (#[trigger] board.at(x, y)) == (CellState {
                alive: in_block(left, top, x, y),
                trail: 0,
            }),
    ensures
        board.step() == board,
        board.changes() == Seq::<(int, int)>::empty(),
        board.generations(n) == board,
{
    assert forall|x: int, y: int| board.contains(x, y) implies board.next_alive(x, y) == (
    #[trigger] board.at(x, y)).alive && board.at(x, y).trail == 0 by {
        lemma_block_counts(board, left, top, x, y);
    }
    lemma_still_life(board, n);
}

/// On a board that holds nothing but a block, each cell of the block has
/// three living neighbours, and no other cell has more than two.
proof fn lemma_block_counts(board: Board, left: int, top: int, x: int, y: int)
    requires
        board.wf(),
        board.contains(left, top),
        board.contains(left + 1, top + 1),
        forall|i: int, j: int|
            board.contains(i, j) ==> (#[trigger] board.at(i, j)) == (CellState {
                alive: in_block(left, top, i, j),
                trail: 0,
            }),
        board.contains(x, y),
    ensures
        in_block(left, top, x, y) ==> board.live_neighbours(x, y) == 3,
        !in_block(left, top, x, y) ==> board.live_neighbours(x, y) <= 2,
{
    assert forall|i: int, j: int| board.live_at(i, j) == in_block(left, top, i, j) by {
        if board.contains(i, j) {
            assert(board.at(i, j).alive == in_block(left, top, i, j));
        }
    }
    assert(board.live_at(x - 1, y - 1) == in_block(left, top, x - 1, y - 1));
    assert(board.live_at(x, y - 1) == in_block(left, top, x, y - 1));
    assert(board.live_at(x + 1, y - 1) == in_block(left, top, x + 1, y - 1));
    assert(board.live_at(x - 1, y) == in_block(left, top, x - 1, y));
    assert(board.live_at(x + 1, y) == in_block(left, top, x + 1, y));
    assert(board.live_at(x - 1, y + 1) == in_block(left, top, x - 1, y + 1));
    assert(board.live_at(x, y + 1) == in_block(left, top, x, y + 1));
    assert(board.live_at(x + 1, y + 1) == in_block(left, top, x + 1, y + 1));
}

/// The afterglow of a cell that stays dead loses one step with each
/// generation until none is left, and then stays at none: the blue of the
/// cell fades strictly while there is any, is never above the full one and
/// never below nothing.
pub proof fn lemma_trail_fades(board: Board, x: int, y: int)
    requires
        board.wf(),
        board.contains(x, y),
        !board.at(x, y).alive,
        !board.step().at(x, y).alive,
    ensures
        board.at(x, y).trail > 0 ==> board.step().at(x, y).trail == board.at(x, y).trail - 1,
        board.at(x, y).trail == 0 ==> board.step().at(x, y).trail == 0,
        board.step().at(x, y).shade().blue == board.step().at(x, y).trail,
        board.step().at(x, y).shade().blue <= board.at(x, y).shade().blue <= MAX_COOLDOWN,
        board.at(x, y).shade().blue > 0 ==> board.step().at(x, y).shade().blue < board.at(
            x,
            y,
        ).shade().blue,
{
    lemma_step_wf(board);
    assert(board.at(x, y).wf());
}

/// A cell that dies has the full afterglow in the generation in which it is
/// first dead. If it then stays dead for `k` more generations, what is left
/// of its afterglow is the full one less `k`, and nothing from the
/// `MAX_COOLDOWN`-th on: from then the cell has the colour of the background.
pub proof fn lemma_trail_is_bounded(board: Board, x: int, y: int, k: nat)
    requires
        board.wf(),
        board.contains(x, y),
        board.at(x, y).alive,
        forall|j: nat| 1 <= j <= k + 1 ==> !(#[trigger] board.generations(j)).at(x, y).alive,
    ensures
        board.generations(k + 1).at(x, y).trail == if k <= MAX_COOLDOWN {
            MAX_COOLDOWN - k
        } else {
            0
        },
        k >= MAX_COOLDOWN ==> board.generations(k + 1).at(x, y).shade() == (CellState {
            alive: false,
            trail: 0,
        }).shade(),
    decreases k,
{
    if k == 0 {
        assert(board.generations(0) == board);
        assert(board.generations(1) == board.generations(0).step());
        lemma_step_wf(board);
        assert(!board.generations(1).at(x, y).alive);
    } else {
        lemma_trail_is_bounded(board, x, y, (k - 1) as nat);
        let earlier = board.generations(k);
        lemma_generations_wf(board, k);
        lemma_step_wf(earlier);
        assert(board.generations(k + 1) == earlier.step());
        assert(!board.generations(k).at(x, y).alive);
        assert(!board.generations(k + 1).at(x, y).alive);
        assert(earlier.at(x, y).wf());
    }
}

/// The colour of a well-formed cell tells its state: two such cells of one
/// colour are the same.
pub proof fn lemma_shade_tells_state(a: CellState, b: CellState)
    requires
        a.wf(),
        b.wf(),
        a.shade() == b.shade(),
    ensures
        a == b,
{
}

/// What a step notes as touched is what it changes to the eye. A point of the
/// grid is among the changes if and only if the colour of its cell in the
/// next generation differs from the colour now; every point among the changes
/// lies on the grid; and no point is among them twice.
pub proof fn lemma_changes_are_colour_changes(board: Board)
    requires
        board.wf(),
    ensures
        forall|x: int, y: int|
            board.contains(x, y) ==> (#[trigger] board.changes().contains((x, y))
                <==> board.step().at(x, y).shade() != board.at(x, y).shade()),
        forall|k: int|
            0 <= k < board.changes().len() ==> board.contains(
                (#[trigger] board.changes()[k]).0,
                board.changes()[k].1,
            ),
        board.changes().no_duplicates(),
{
    lemma_step_wf(board);
    board.lemma_changes_upto(board.size());
    assert forall|x: int, y: int| board.contains(x, y) implies (#[trigger] board.changes().contains(
        (x, y),
    ) <==> board.step().at(x, y).shade() != board.at(x, y).shade()) by {
        let now = board.at(x, y);
        let next = board.step().at(x, y);
        assert(now.wf());
        assert(next == board.next_state(x, y));
        if board.changes().contains((x, y)) {
            let k = choose|k: int| 0 <= k < board.changes().len() && board.changes()[k] == (x, y);
            assert(board.is_dirty(board.changes()[k].0, board.changes()[k].1));
        }
        assert(board.changes().contains((x, y)) == board.is_dirty(x, y));
    }
}

/// After `n` rounds of one generation and one fetching of the changes.
pub open spec fn after_rounds(start: AutomataView, n: nat) -> AutomataView
    decreases n,
{
    if n == 0 {
        start
    } else {
        after_rounds(start, (n - 1) as nat).advanced().drained()
    }
}

/// What is fetched in round `n`, counted from one.
pub open spec fn report_of_round(start: AutomataView, n: nat) -> Seq<((int, int), Color)>
    recommends
        n > 0,
{
    after_rounds(start, (n - 1) as nat).advanced().report()
}

/// A grid of `size` with the cells at `seeds` brought to life one after the
/// other.
pub open spec fn seeded(size: nat, seeds: Seq<(int, int)>) -> AutomataView
    decreases seeds.len(),
{
    if seeds.len() == 0 {
        AutomataView::empty(size)
    } else {
        seeded(size, seeds.drop_last()).born(seeds.last().0, seeds.last().1)
    }
}

/// A run is determined by its size and its seeds. Two automata of one size
/// in which the same cells were brought to life in the same order hold the
/// same after every round and hand out the same in every round, whatever was
/// read from either in between.
pub proof fn lemma_run_is_determined(
    size: nat,
    seeds: Seq<(int, int)>,
    a: AutomataView,
    b: AutomataView,
    n: nat,
)
    requires
        a == seeded(size, seeds),
        b == seeded(size, seeds),
    ensures
        a.report() == b.report(),
        after_rounds(a.drained(), n) == after_rounds(b.drained(), n),
        n > 0 ==> report_of_round(a.drained(), n) == report_of_round(b.drained(), n),
{
}

/// What waited before a generation does not change what the generation
/// touches: the step appends its changes, which depend on the cells alone.
pub proof fn lemma_changes_depend_on_cells(a: AutomataView, b: AutomataView)
    requires
        a.board == b.board,
    ensures
        a.advanced().board == b.advanced().board,
        a.drained().advanced() == b.drained().advanced(),
        a.drained().advanced().dirty == a.board.changes(),
{
    assert(a.drained().advanced().dirty =~= a.board.changes());
}

} // verus!
