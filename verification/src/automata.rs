use vstd::prelude::*;
use crate::board::{count, Board};
use crate::color::{CellState, Color, MAX_COOLDOWN};

verus! {

/// A column and a row of the grid.
#[derive(Clone, Copy, Debug, PartialEq, Eq, Structural)]
pub struct Point(pub usize, pub usize);

impl View for Point {
    type V = (int, int);

    open spec fn view(&self) -> (int, int) {
        (self.0 as int, self.1 as int)
    }
}

/// One cell of the grid.
#[derive(Clone, Copy, Debug)]
pub struct Cell {
    active: bool,
    /// What `active` was when the generation that is being computed began.
    old_active: bool,
    cooldown: u8,
}

impl View for Cell {
    type V = CellState;

    closed spec fn view(&self) -> CellState {
        CellState { alive: self.active, trail: self.cooldown as nat }
    }
}

impl Cell {
    /// Whether the cell lived when the generation that is being computed
    /// began. Between two generations this is whether it lives.
    pub closed spec fn was_alive(&self) -> bool {
        self.old_active
    }

    /// A cell without afterglow.
    pub fn new(active: bool) -> (cell: Cell)
        ensures
            cell@ == (CellState { alive: active, trail: 0 }),
            cell.was_alive() == active,
    {
        Cell { active, old_active: active, cooldown: 0 }
    }

    /// Sets the afterglow for a cell whose life has just been decided: none
    /// while it lives, the full one if it has just died, one step less if it
    /// was dead already.
    pub fn update_cooldown(&mut self)
        ensures
            final(self)@.alive == old(self)@.alive,
            final(self).was_alive() == old(self).was_alive(),
            final(self)@.trail == if old(self)@.alive {
                0
            } else if old(self).was_alive() {
                MAX_COOLDOWN as nat
            } else if old(self)@.trail > 0 {
                (old(self)@.trail - 1) as nat
            } else {
                0
            },
    {
        self.cooldown = if self.active {
            0
        } else if self.old_active {
            MAX_COOLDOWN
        } else if self.cooldown > 0 {
            self.cooldown - 1
        } else {
            0
        }
    }

    /// The colour in which the cell is drawn.
    pub fn color(&self) -> (c: Color)
        ensures
            c == self@.shade(),
    {
        if self.active {
            Color { red: MAX_COOLDOWN, green: 0, blue: 0, alpha: MAX_COOLDOWN }
        } else if self.cooldown > 0 {
            Color { red: 0, green: 0, blue: self.cooldown, alpha: MAX_COOLDOWN }
        } else {
            Color { red: 0, green: 0, blue: 0, alpha: MAX_COOLDOWN }
        }
    }
}

/// What an automaton holds: its cells, and the points that were touched since
/// the changes were last fetched, in the order in which they were touched.
pub struct AutomataView {
    pub board: Board,
    pub dirty: Seq<(int, int)>,
}

impl AutomataView {
    /// A grid of `size` rows and columns on which nothing lives, nothing
    /// glows and nothing waits.
    pub open spec fn empty(size: nat) -> AutomataView {
        AutomataView {
            board: Board {
                rows: Seq::new(
                    size,
                    |y: int| Seq::new(size, |x: int| CellState { alive: false, trail: 0 }),
                ),
            },
            dirty: Seq::empty(),
        }
    }

    /// The same with a living cell at `(x, y)`, which now waits as the last.
    pub open spec fn born(self, x: int, y: int) -> AutomataView {
        AutomataView {
            board: Board {
                rows: self.board.rows.update(
                    y,
                    self.board.rows[y].update(x, CellState { alive: true, trail: 0 }),
                ),
            },
            dirty: self.dirty.push((x, y)),
        }
    }

    /// The next generation, with what it touches behind what waited already.
    pub open spec fn advanced(self) -> AutomataView {
        AutomataView { board: self.board.step(), dirty: self.dirty + self.board.changes() }
    }

    /// The same cells with nothing waiting.
    pub open spec fn drained(self) -> AutomataView {
        AutomataView { board: self.board, dirty: Seq::empty() }
    }

    /// What is handed out when the changes are fetched: each point that
    /// waits, in the order in which it was touched, with the colour that its
    /// cell has now.
    pub open spec fn report(self) -> Seq<((int, int), Color)> {
        Seq::new(
            self.dirty.len(),
            |i: int| (self.dirty[i], self.board.at(self.dirty[i].0, self.dirty[i].1).shade()),
        )
    }
}

/// A square grid of cells that live and die by the rules of the Game of Life.
#[derive(Clone)]
pub struct Automata {
    grid: Vec<Vec<Cell>>,
    updated_cells: Vec<Point>,
}

impl View for Automata {
    type V = AutomataView;

    closed spec fn view(&self) -> AutomataView {
        AutomataView {
            board: Board {
                rows: Seq::new(
                    self.grid@.len(),
                    |y: int| Seq::new(self.grid@[y]@.len(), |x: int| self.grid@[y]@[x]@),
                ),
            },
            dirty: Seq::new(self.updated_cells@.len(), |i: int| self.updated_cells@[i]@),
        }
    }
}

/// The number of `cells` that lived when the generation that is being
/// computed began.
spec fn count_was_alive(cells: Seq<&Cell>) -> nat
    decreases cells.len(),
{
    if cells.len() == 0 {
        0
    } else {
        count_was_alive(cells.drop_last()) + count(cells.last().was_alive())
    }
}

/// Counts the cells that lived when the generation that is being computed
/// began.
fn count_old_active(cells: &Vec<&Cell>) -> (n: usize)
    ensures
        n == count_was_alive(cells@),
{
    let mut n: usize = 0;
    let mut i: usize = 0;
    while i < cells.len()
        invariant
            i <= cells@.len(),
            n <= i,
            n == count_was_alive(cells@.take(i as int)),
        decreases cells@.len() - i,
    {
        proof {
            assert(cells@.take(i + 1).drop_last() =~= cells@.take(i as int));
        }
        if cells[i].old_active {
            n += 1;
        }
        i += 1;
    }
    proof {
        assert(cells@.take(i as int) =~= cells@);
    }
    n
}

impl Automata {
    /// The cell in column `x` of row `y`.
    pub closed spec fn cell(&self, x: int, y: int) -> Cell {
        self.grid@[y]@[x]
    }

    /// The grid is square and not empty, and the points that wait to be
    /// fetched lie on it. This holds at all times, also while a generation
    /// is being computed.
    pub closed spec fn shaped(&self) -> bool {
        &&& 0 < self.grid@.len()
        &&& forall|y: int|
            0 <= y < self.grid@.len() ==> (#[trigger] self.grid@[y])@.len() == self.grid@.len()
        &&& forall|i: int|
            0 <= i < self.updated_cells@.len() ==> {
                &&& (#[trigger] self.updated_cells@[i]).0 < self.grid@.len()
                &&& self.updated_cells@[i].1 < self.grid@.len()
            }
    }

    /// No generation is being computed: every cell remembers the life that it
    /// has, and only a dead cell glows.
    pub closed spec fn settled(&self) -> bool {
        forall|x: int, y: int|
            0 <= x < self.grid@.len() && 0 <= y < self.grid@.len() ==> {
                let c = #[trigger] self.grid@[y]@[x];
                &&& c.old_active == c.active
                &&& c.cooldown <= MAX_COOLDOWN
                &&& c.active ==> c.cooldown == 0
            }
    }

    /// The points that wait to be fetched, in the order in which they were
    /// touched.
    pub closed spec fn waiting(&self) -> Seq<Point> {
        self.updated_cells@
    }

    /// What holds of an automaton between any two calls of its functions.
    pub open spec fn wf(&self) -> bool {
        self.shaped() && self.settled()
    }

    /// The view of a well-shaped automaton shows its cells one for one, and
    /// that of a well-formed one is a well-formed board whose cells remember
    /// the life that they have.
    pub proof fn lemma_view(&self)
        requires
            self.shaped(),
        ensures
            self@.board.size() > 0,
            forall|y: int|
                0 <= y < self@.board.size() ==> (#[trigger] self@.board.rows[y]).len()
                    == self@.board.size(),
            forall|x: int, y: int|
                self@.board.contains(x, y) ==> #[trigger] self@.board.at(x, y) == self.cell(x, y)@,
            forall|i: int|
                0 <= i < self@.dirty.len() ==> self@.board.contains(
                    (#[trigger] self@.dirty[i]).0,
                    self@.dirty[i].1,
                ),
            self.wf() ==> self@.board.wf(),
            self.wf() ==> forall|x: int, y: int|
                self@.board.contains(x, y) ==> (#[trigger] self.cell(x, y)).was_alive()
                    == self@.board.at(x, y).alive,
    {
        assert forall|i: int| 0 <= i < self@.dirty.len() implies self@.board.contains(
            (#[trigger] self@.dirty[i]).0,
            self@.dirty[i].1,
        ) by {
            assert(self@.dirty[i] == self.updated_cells@[i]@);
        }
        if self.wf() {
            assert forall|x: int, y: int| self@.board.contains(x, y) implies (
            #[trigger] self@.board.at(x, y)).wf() by {
                assert(self@.board.at(x, y) == self.grid@[y]@[x]@);
            }
        }
    }

    /// Nothing is hidden behind the view. Two well-formed automata with one
    /// view hold the same cells, in what these remember too, and the same
    /// points in waiting: what either does next, it does to both alike.
    pub proof fn lemma_view_is_all(&self, other: &Automata)
        requires
            self.wf(),
            other.wf(),
            self@ == other@,
        ensures
            forall|x: int, y: int|
                self@.board.contains(x, y) ==> #[trigger] self.cell(x, y) == other.cell(x, y),
            self.waiting() == other.waiting(),
    {
        assert(self.grid@.len() == self@.board.rows.len());
        assert(other.grid@.len() == other@.board.rows.len());
        assert forall|x: int, y: int| self@.board.contains(x, y) implies #[trigger] self.cell(x, y)
            == other.cell(x, y) by {
            assert(self@.board.rows[y][x] == self.grid@[y]@[x]@);
            assert(other@.board.rows[y][x] == other.grid@[y]@[x]@);
        }
        assert(self.updated_cells@.len() == self@.dirty.len());
        assert(other.updated_cells@.len() == other@.dirty.len());
        assert forall|i: int| 0 <= i < self.updated_cells@.len() implies self.updated_cells@[i]
            == other.updated_cells@[i] by {
            assert(self@.dirty[i] == self.updated_cells@[i]@);
            assert(other@.dirty[i] == other.updated_cells@[i]@);
        }
        assert(self.updated_cells@ =~= other.updated_cells@);
    }

    /// A grid of `size` rows and `size` columns in which nothing lives and
    /// nothing waits to be fetched.
    pub fn new(size: usize) -> (automata: Automata)
        requires
            size > 0,
        ensures
            automata.wf(),
            automata@.board.size() == size,
            forall|x: int, y: int|
                automata@.board.contains(x, y) ==> #[trigger] automata@.board.at(x, y) == (
                CellState { alive: false, trail: 0 }),
            automata@.dirty == Seq::<(int, int)>::empty(),
            automata@ == AutomataView::empty(size as nat),
    {
        let mut grid: Vec<Vec<Cell>> = Vec::new();
        let mut y: usize = 0;
        while y < size
            invariant
                y <= size,
                grid@.len() == y,
                forall|j: int| 0 <= j < y ==> (#[trigger] grid@[j])@.len() == size,
                forall|i: int, j: int|
                    0 <= i < size && 0 <= j < y ==> {
                        let c = #[trigger] grid@[j]@[i];
                        !c.active && !c.old_active && c.cooldown == 0
                    },
            decreases size - y,
        {
            let mut row: Vec<Cell> = Vec::new();
            let mut x: usize = 0;
            while x < size
                invariant
                    x <= size,
                    row@.len() == x,
                    forall|i: int|
                        0 <= i < x ==> {
                            let c = #[trigger] row@[i];
                            !c.active && !c.old_active && c.cooldown == 0
                        },
                decreases size - x,
            {
                row.push(Cell::new(false));
                x += 1;
            }
            grid.push(row);
            y += 1;
        }
        let automata = Automata { grid, updated_cells: Vec::new() };
        proof {
            assert(automata@.board.rows =~~= AutomataView::empty(size as nat).board.rows);
        }
        automata
    }

    /// The number of rows, which is also the number of columns.
    pub fn size(&self) -> (size: usize)
        ensures
            size == self@.board.size(),
    {
        self.grid.len()
    }

    /// Whether `cells` are the cells at `points`, one for one.
    pub open spec fn cells_at(&self, cells: Seq<&Cell>, points: Seq<(int, int)>) -> bool {
        &&& cells.len() == points.len()
        &&& forall|i: int|
            0 <= i < cells.len() ==> *(#[trigger] cells[i]) == self.cell(points[i].0, points[i].1)
    }

    /// The cells that touch the cell in column `x` of row `y`, up to eight of
    /// them: the row above from left to right, then the left and the right
    /// neighbour, then the row below. What would lie beyond an edge is left out.
    pub fn get_neighbours(&self, x: usize, y: usize) -> (cells: Vec<&Cell>)
        requires
            self.shaped(),
            x < self@.board.size(),
            y < self@.board.size(),
        ensures
            self.cells_at(cells@, self@.board.neighbour_points(x as int, y as int)),
    {
        let size = self.grid.len();
        let (up, down, left, right) = (y > 0, y + 1 < size, x > 0, x + 1 < size);
        let ghost board = self@.board;
        let ghost (xi, yi) = (x as int, y as int);
        let ghost mut points: Seq<(int, int)> = Seq::empty();
        let mut cells: Vec<&Cell> = Vec::new();
        if up && left {
            cells.push(&self.grid[y - 1][x - 1]);
        }
        proof {
            points = points + board.point_if_inside(xi - 1, yi - 1);
            assert(self.cells_at(cells@, points));
        }
        if up {
            cells.push(&self.grid[y - 1][x]);
        }
        proof {
            points = points + board.point_if_inside(xi, yi - 1);
            assert(self.cells_at(cells@, points));
        }
        if up && right {
            cells.push(&self.grid[y - 1][x + 1]);
        }
        proof {
            points = points + board.point_if_inside(xi + 1, yi - 1);
            assert(self.cells_at(cells@, points));
        }
        if left {
            cells.push(&self.grid[y][x - 1]);
        }
        proof {
            points = points + board.point_if_inside(xi - 1, yi);
            assert(self.cells_at(cells@, points));
        }
        if right {
            cells.push(&self.grid[y][x + 1]);
        }
        proof {
            points = points + board.point_if_inside(xi + 1, yi);
            assert(self.cells_at(cells@, points));
        }
        if down && left {
            cells.push(&self.grid[y + 1][x - 1]);
        }
        proof {
            points = points + board.point_if_inside(xi - 1, yi + 1);
            assert(self.cells_at(cells@, points));
        }
        if down {
            cells.push(&self.grid[y + 1][x]);
        }
        proof {
            points = points + board.point_if_inside(xi, yi + 1);
            assert(self.cells_at(cells@, points));
        }
        if down && right {
            cells.push(&self.grid[y + 1][x + 1]);
        }
        proof {
            points = points + board.point_if_inside(xi + 1, yi + 1);
            assert(self.cells_at(cells@, points));
        }
        cells
    }

    /// The generation after `before` is being computed, and the sweep has come
    /// to column `x` of row `y`: the cells that it has passed hold the next
    /// generation, the others what they held, and all remember `before`.
    spec fn swept_to(&self, before: Board, x: int, y: int) -> bool {
        &&& self.shaped()
        &&& self.grid@.len() == before.size()
        &&& forall|i: int, j: int|
            0 <= i < self.grid@.len() && 0 <= j < self.grid@.len() ==> {
                let c = #[trigger] self.grid@[j]@[i];
                &&& c.old_active == before.at(i, j).alive
                &&& c@ == if j < y || (j == y && i < x) {
                    before.next_state(i, j)
                } else {
                    before.at(i, j)
                }
            }
    }

    /// Whether the point `(x, y)` waits to be fetched at index `from` or behind it.
    spec fn waits_from(&self, x: int, y: int, from: int) -> bool {
        exists|k: int|
            from <= k < self.updated_cells@.len() && (#[trigger] self.updated_cells@[k])@ == (x, y)
    }

    /// The cells at `points` that lived when the generation began are the
    /// cells that live on `before` there, if the cells remember `before`.
    proof fn lemma_count_was_alive(
        &self,
        before: Board,
        cells: Seq<&Cell>,
        points: Seq<(int, int)>,
    )
        requires
            self.cells_at(cells, points),
            forall|i: int|
                0 <= i < points.len() ==> {
                    let p = #[trigger] points[i];
                    before.contains(p.0, p.1) && self.cell(p.0, p.1).old_active == before.at(
                        p.0,
                        p.1,
                    ).alive
                },
        ensures
            count_was_alive(cells) == before.live_among(points),
        decreases points.len(),
    {
        if points.len() > 0 {
            self.lemma_count_was_alive(before, cells.drop_last(), points.drop_last());
        }
    }

    /// Computes the next generation: every cell is judged by the neighbours
    /// that it had when the call began, and each cell that is born, dies or
    /// still glows is noted as touched, row after row.
    pub fn update(&mut self)
        requires
            old(self).wf(),
        ensures
            final(self).wf(),
            final(self)@.board == old(self)@.board.step(),
            final(self)@.dirty == old(self)@.dirty + old(self)@.board.changes(),
            final(self)@ == old(self)@.advanced(),
    {
        let size = self.grid.len();
        let ghost before = self@.board;
        let ghost dirty = self@.dirty;
        proof {
            self.lemma_view();
            before.lemma_changes_next(0);
        }
        let mut y: usize = 0;
        while y < size
            invariant
                y <= size,
                size == self.grid@.len(),
                before.wf(),
                self.swept_to(before, 0, y as int),
                self@.dirty == dirty + before.changes_upto(y as int),
            decreases size - y,
        {
            let mut x: usize = 0;
            proof {
                before.lemma_row_changes_next(y as int, 0);
            }
            while x < size
                invariant
                    x <= size,
                    y < size,
                    size == self.grid@.len(),
                    before.wf(),
                    self.swept_to(before, x as int, y as int),
                    self@.dirty == dirty + before.changes_upto(y as int) + before.row_changes_upto(
                        y as int,
                        x as int,
                    ),
                decreases size - x,
            {
                let ghost entry = *self;
                let neighbours = self.get_neighbours(x, y);
                let neighbour_birth_sum = count_old_active(&neighbours);
                proof {
                    let points = before.neighbour_points(x as int, y as int);
                    before.lemma_neighbour_points(x as int, y as int);
                    assert forall|i: int| 0 <= i < points.len() implies {
                        let p = #[trigger] points[i];
                        before.contains(p.0, p.1) && self.cell(p.0, p.1).old_active == before.at(
                            p.0,
                            p.1,
                        ).alive
                    } by {
                        assert(before.touches(x as int, y as int, points[i]));
                    }
                    self.lemma_count_was_alive(before, neighbours@, points);
                    before.lemma_live_neighbours(x as int, y as int);
                    before.lemma_row_changes_next(y as int, x as int);
                }
                let cell = &mut self.grid[y][x];
                let (alive, changed) = match neighbour_birth_sum {
                    2 => (cell.active, false),
                    3 => (true, !cell.active),
                    _ => (false, cell.active),
                };
                let touched = changed || cell.cooldown > 0;
                if touched {
                    self.updated_cells.push(Point(x, y));
                    cell.active = alive;
                    cell.update_cooldown();
                }
                proof {
                    assert(self@.dirty =~= if touched {
                        entry@.dirty.push((x as int, y as int))
                    } else {
                        entry@.dirty
                    });
                    assert(touched == before.is_dirty(x as int, y as int));
                    assert(self.grid@[y as int]@[x as int]@ == before.next_state(
                        x as int,
                        y as int,
                    ));
                }
                x += 1;
            }
            proof {
                before.lemma_changes_next(y as int);
            }
            y += 1;
        }
        proof {
            before.lemma_changes_upto(size as int);
            assert forall|i: int, j: int|
                0 <= i < size && 0 <= j < size implies self.grid@[j]@[i].old_active
                == self.grid@[j]@[i].active || self.waits_from(i, j, 0) by {
                let c = self.grid@[j]@[i];
                if c.old_active != c.active {
                    assert(before.changes().contains((i, j)));
                    let k = choose|k: int|
                        0 <= k < before.changes().len() && before.changes()[k] == (i, j);
                    assert(self@.dirty[dirty.len() + k] == (i, j));
                }
            }
        }
        let ghost swept = *self;
        let mut k: usize = 0;
        while k < self.updated_cells.len()
            invariant
                size == self.grid@.len(),
                self.shaped(),
                self.updated_cells@ == swept.updated_cells@,
                forall|i: int, j: int|
                    0 <= i < size && 0 <= j < size ==> {
                        let c = #[trigger] self.grid@[j]@[i];
                        &&& c@ == before.next_state(i, j)
                        &&& c.old_active == c.active || self.waits_from(i, j, k as int)
                    },
            decreases self.updated_cells@.len() - k,
        {
            let ghost entry = *self;
            let Point(x, y) = self.updated_cells[k];
            let cell = &mut self.grid[y][x];
            cell.old_active = cell.active;
            proof {
                assert forall|i: int, j: int| 0 <= i < size && 0 <= j < size implies {
                    let c = #[trigger] self.grid@[j]@[i];
                    &&& c@ == before.next_state(i, j)
                    &&& c.old_active == c.active || self.waits_from(i, j, k + 1)
                } by {
                    let c = entry.grid@[j]@[i];
                    if (i != x || j != y) && c.old_active != c.active {
                        let w = choose|w: int|
                            k <= w < entry.updated_cells@.len() && (
                            #[trigger] entry.updated_cells@[w])@ == (i, j);
                        assert(self.updated_cells@[w]@ == (i, j));
                    }
                }
            }
            k += 1;
        }
        proof {
            assert(self.settled()) by {
                assert forall|i: int, j: int|
                    0 <= i < self.grid@.len() && 0 <= j < self.grid@.len() implies {
                    let c = #[trigger] self.grid@[j]@[i];
                    &&& c.old_active == c.active
                    &&& c.cooldown <= MAX_COOLDOWN
                    &&& c.active ==> c.cooldown == 0
                } by {
                    assert(self.grid@[j]@[i]@ == before.next_state(i, j));
                    assert(before.at(i, j).wf());
                    assert(!self.waits_from(i, j, k as int));
                }
            }
            assert(self@.board.rows =~~= before.step().rows);
        }
    }

    /// Hands out the points that were touched since the last call, in the
    /// order in which they were touched, each with the colour that its cell
    /// has now, and forgets them. The cells stay as they are.
    pub fn get_new_graphics(&mut self) -> (out: Vec<(Point, Color)>)
        requires
            old(self).wf(),
        ensures
            final(self).wf(),
            final(self)@.board == old(self)@.board,
            final(self)@.dirty == Seq::<(int, int)>::empty(),
            final(self)@ == old(self)@.drained(),
            out@.len() == old(self)@.report().len(),
            forall|i: int|
                0 <= i < out@.len() ==> ((#[trigger] out@[i]).0@, out@[i].1) == old(
                    self,
                )@.report()[i],
    {
        let mut out: Vec<(Point, Color)> = Vec::new();
        let mut i: usize = 0;
        proof {
            self.lemma_view();
        }
        while i < self.updated_cells.len()
            invariant
                *self == *old(self),
                self.shaped(),
                i <= self.updated_cells@.len(),
                out@.len() == i,
                forall|k: int|
                    0 <= k < i ==> ((#[trigger] out@[k]).0@, out@[k].1) == self@.report()[k],
            decreases self.updated_cells@.len() - i,
        {
            let Point(x, y) = self.updated_cells[i];
            let cell = &self.grid[y][x];
            proof {
                assert(self@.dirty[i as int] == (x as int, y as int));
                assert(self@.board.at(x as int, y as int) == cell@);
            }
            out.push((Point(x, y), cell.color()));
            i += 1;
        }
        self.updated_cells.clear();
        proof {
            assert(self@.dirty =~= Seq::<(int, int)>::empty());
            assert(self@.board.rows =~~= old(self)@.board.rows);
        }
        out
    }

    /// The cell in column `x` of row `y`.
    pub fn cell_at(&self, x: usize, y: usize) -> (cell: &Cell)
        requires
            self.wf(),
            x < self@.board.size(),
            y < self@.board.size(),
        ensures
            cell@ == self@.board.at(x as int, y as int),
            cell.was_alive() == cell@.alive,
    {
        &self.grid[y][x]
    }

    /// Brings the cell in column `x` of row `y` to life, as if it had lived
    /// before, and notes it as touched.
    pub fn birth_cell_at(&mut self, x: usize, y: usize)
        requires
            old(self).wf(),
            x < old(self)@.board.size(),
            y < old(self)@.board.size(),
        ensures
            final(self).wf(),
            final(self)@.board.size() == old(self)@.board.size(),
            forall|i: int, j: int|
                old(self)@.board.contains(i, j) ==> #[trigger] final(self)@.board.at(i, j) == if i
                    == x && j == y {
                    CellState { alive: true, trail: 0 }
                } else {
                    old(self)@.board.at(i, j)
                },
            final(self)@.dirty == old(self)@.dirty.push((x as int, y as int)),
            final(self)@ == old(self)@.born(x as int, y as int),
    {
        let cell = &mut self.grid[y][x];
        cell.active = true;
        cell.old_active = true;
        cell.cooldown = 0;
        self.updated_cells.push(Point(x, y));
        proof {
            assert(self@.dirty =~= old(self)@.dirty.push((x as int, y as int)));
            assert(self@.board.rows =~~= old(self)@.born(x as int, y as int).board.rows);
        }
    }
}

} // verus!
