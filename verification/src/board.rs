use vstd::prelude::*;
use crate::color::{CellState, MAX_COOLDOWN};

verus! {

/// The cells of a square grid as mathematics: `rows[y][x]` is the cell in
/// column `x` of row `y`. Everything the automaton does is stated over this.
pub struct Board {
    pub rows: Seq<Seq<CellState>>,
}

/// One for a true statement, nothing for a false one.
pub open spec fn count(b: bool) -> nat {
    if b {
        1
    } else {
        0
    }
}

impl Board {
    /// The number of rows, which is also the number of columns.
    pub open spec fn size(self) -> int {
        self.rows.len() as int
    }

    /// Whether column `x` of row `y` lies on the grid.
    pub open spec fn contains(self, x: int, y: int) -> bool {
        0 <= x < self.size() && 0 <= y < self.size()
    }

    /// The cell in column `x` of row `y`.
    pub open spec fn at(self, x: int, y: int) -> CellState
        recommends
            self.contains(x, y),
    {
        self.rows[y][x]
    }

    /// The grid is square and not empty, and each of its cells is well formed.
    pub open spec fn wf(self) -> bool {
        &&& self.size() > 0
        &&& forall|y: int| 0 <= y < self.size() ==> (#[trigger] self.rows[y]).len() == self.size()
        &&& forall|x: int, y: int| self.contains(x, y) ==> (#[trigger] self.at(x, y)).wf()
    }

    /// Whether a living cell stands in column `x` of row `y`. Beyond the edge
    /// of the grid nothing lives: the grid does not wrap around.
    pub open spec fn live_at(self, x: int, y: int) -> bool {
        self.contains(x, y) && self.at(x, y).alive
    }

    /// The number of living cells among the eight that touch `(x, y)`.
    pub open spec fn live_neighbours(self, x: int, y: int) -> nat {
        count(self.live_at(x - 1, y - 1)) + count(self.live_at(x, y - 1)) + count(
            self.live_at(x + 1, y - 1),
        ) + count(self.live_at(x - 1, y)) + count(self.live_at(x + 1, y)) + count(
            self.live_at(x - 1, y + 1),
        ) + count(self.live_at(x, y + 1)) + count(self.live_at(x + 1, y + 1))
    }

    /// The point `(x, y)` alone if it lies on the grid, and nothing otherwise.
    pub open spec fn point_if_inside(self, x: int, y: int) -> Seq<(int, int)> {
        if self.contains(x, y) {
            seq![(x, y)]
        } else {
            Seq::empty()
        }
    }

    /// The points of the grid that touch `(x, y)`: the row above from left to
    /// right, then the left and the right neighbour, then the row below.
    pub open spec fn neighbour_points(self, x: int, y: int) -> Seq<(int, int)> {
        self.point_if_inside(x - 1, y - 1) + self.point_if_inside(x, y - 1) + self.point_if_inside(
            x + 1,
            y - 1,
        ) + self.point_if_inside(x - 1, y) + self.point_if_inside(x + 1, y) + self.point_if_inside(
            x - 1,
            y + 1,
        ) + self.point_if_inside(x, y + 1) + self.point_if_inside(x + 1, y + 1)
    }

    /// Whether `p` lies on the grid and touches `(x, y)`: it is no more than
    /// one step away in each direction, and is not `(x, y)` itself.
    pub open spec fn touches(self, x: int, y: int, p: (int, int)) -> bool {
        &&& self.contains(p.0, p.1)
        &&& x - 1 <= p.0 <= x + 1
        &&& y - 1 <= p.1 <= y + 1
        &&& p != (x, y)
    }

    /// Whether all of `points` lie on the grid and touch `(x, y)`.
    pub open spec fn all_touch(self, x: int, y: int, points: Seq<(int, int)>) -> bool {
        forall|i: int| 0 <= i < points.len() ==> self.touches(x, y, #[trigger] points[i])
    }

    /// The number of living cells at the given points.
    pub open spec fn live_among(self, points: Seq<(int, int)>) -> nat
        decreases points.len(),
    {
        if points.len() == 0 {
            0
        } else {
            self.live_among(points.drop_last()) + count(
                self.live_at(points.last().0, points.last().1),
            )
        }
    }

    /// Whether the cell lives in the next generation: with three living
    /// neighbours it does, with two it stays as it is, otherwise it does not.
    pub open spec fn next_alive(self, x: int, y: int) -> bool {
        let n = self.live_neighbours(x, y);
        n == 3 || (n == 2 && self.at(x, y).alive)
    }

    /// The cell in the next generation. A living cell has no afterglow, a cell
    /// that has just died has the full one, and the afterglow of a cell that
    /// stays dead loses one step until none is left.
    pub open spec fn next_state(self, x: int, y: int) -> CellState {
        let cell = self.at(x, y);
        let alive = self.next_alive(x, y);
        CellState {
            alive,
            trail: if alive {
                0
            } else if cell.alive {
                MAX_COOLDOWN as nat
            } else if cell.trail > 0 {
                (cell.trail - 1) as nat
            } else {
                0
            },
        }
    }

    /// The next generation, each cell of it computed from this one.
    pub open spec fn step(self) -> Board {
        Board {
            rows: Seq::new(
                self.rows.len(),
                |y: int| Seq::new(self.rows.len(), |x: int| self.next_state(x, y)),
            ),
        }
    }

    /// The board after `n` generations.
    pub open spec fn generations(self, n: nat) -> Board
        decreases n,
    {
        if n == 0 {
            self
        } else {
            self.generations((n - 1) as nat).step()
        }
    }

    /// Whether the step to the next generation touches the cell: it is born,
    /// or it dies, or its afterglow is still fading.
    pub open spec fn is_dirty(self, x: int, y: int) -> bool {
        self.next_alive(x, y) != self.at(x, y).alive || self.at(x, y).trail > 0
    }

    /// `is_dirty` as a predicate on points.
    pub open spec fn dirty_pred(self) -> spec_fn((int, int)) -> bool {
        |p: (int, int)| self.is_dirty(p.0, p.1)
    }

    /// The first `n` points of row `y`, from left to right.
    pub open spec fn row_points(self, y: int, n: int) -> Seq<(int, int)> {
        Seq::new(n as nat, |x: int| (x, y))
    }

    /// The dirty points among the first `n` of row `y`, from left to right.
    pub open spec fn row_changes_upto(self, y: int, n: int) -> Seq<(int, int)> {
        self.row_points(y, n).filter(self.dirty_pred())
    }

    /// The dirty points of row `y`, from left to right.
    pub open spec fn row_changes(self, y: int) -> Seq<(int, int)> {
        self.row_changes_upto(y, self.size())
    }

    /// The dirty points of the first `m` rows, row after row.
    pub open spec fn changes_upto(self, m: int) -> Seq<(int, int)> {
        Seq::new(m as nat, |y: int| self.row_changes(y)).flatten()
    }

    /// The points that the step to the next generation touches, row after row
    /// from the top and in each row from left to right.
    pub open spec fn changes(self) -> Seq<(int, int)> {
        self.changes_upto(self.size())
    }

    /// Taking one more point of a row adds it to the changes if it is dirty.
    pub proof fn lemma_row_changes_next(self, y: int, n: int)
        requires
            0 <= n,
        ensures
            self.row_changes_upto(y, n + 1) == if self.is_dirty(n, y) {
                self.row_changes_upto(y, n).push((n, y))
            } else {
                self.row_changes_upto(y, n)
            },
            self.row_changes_upto(y, 0) == Seq::<(int, int)>::empty(),
    {
        assert(self.row_points(y, n + 1) =~= self.row_points(y, n).push((n, y)));
        self.row_points(y, n).lemma_filter_push((n, y), self.dirty_pred());
        reveal(Seq::filter);
    }

    /// Taking one more row adds its changes behind those of the rows above.
    pub proof fn lemma_changes_next(self, m: int)
        requires
            0 <= m,
        ensures
            self.changes_upto(m + 1) == self.changes_upto(m) + self.row_changes(m),
            self.changes_upto(0) == Seq::<(int, int)>::empty(),
    {
        let rows = Seq::new(m as nat, |y: int| self.row_changes(y));
        let more = Seq::new((m + 1) as nat, |y: int| self.row_changes(y));
        assert(more =~= rows.push(self.row_changes(m)));
        rows.lemma_flatten_push(self.row_changes(m));
    }

    /// Counting the living over two runs of points counts each run.
    pub proof fn lemma_live_among_add(self, a: Seq<(int, int)>, b: Seq<(int, int)>)
        ensures
            self.live_among(a + b) == self.live_among(a) + self.live_among(b),
        decreases b.len(),
    {
        if b.len() == 0 {
            assert(a + b =~= a);
        } else {
            assert((a + b).drop_last() =~= a + b.drop_last());
            self.lemma_live_among_add(a, b.drop_last());
        }
    }

    /// Counting the living at one point, where it lies on the grid, says
    /// whether something lives there.
    pub proof fn lemma_live_among_point(self, x: int, y: int)
        ensures
            self.live_among(self.point_if_inside(x, y)) == count(self.live_at(x, y)),
    {
        let points = self.point_if_inside(x, y);
        if self.contains(x, y) {
            assert(self.live_among(points.drop_last()) == 0);
        }
    }

    /// The living neighbours of a point are the living among the points of
    /// the grid that touch it.
    pub proof fn lemma_live_neighbours(self, x: int, y: int)
        ensures
            self.live_among(self.neighbour_points(x, y)) == self.live_neighbours(x, y),
    {
        let nw = self.point_if_inside(x - 1, y - 1);
        let north = self.point_if_inside(x, y - 1);
        let ne = self.point_if_inside(x + 1, y - 1);
        let west = self.point_if_inside(x - 1, y);
        let east = self.point_if_inside(x + 1, y);
        let sw = self.point_if_inside(x - 1, y + 1);
        let south = self.point_if_inside(x, y + 1);
        let se = self.point_if_inside(x + 1, y + 1);
        self.lemma_live_among_point(x - 1, y - 1);
        self.lemma_live_among_point(x, y - 1);
        self.lemma_live_among_point(x + 1, y - 1);
        self.lemma_live_among_point(x - 1, y);
        self.lemma_live_among_point(x + 1, y);
        self.lemma_live_among_point(x - 1, y + 1);
        self.lemma_live_among_point(x, y + 1);
        self.lemma_live_among_point(x + 1, y + 1);
        self.lemma_live_among_add(nw, north);
        self.lemma_live_among_add(nw + north, ne);
        self.lemma_live_among_add(nw + north + ne, west);
        self.lemma_live_among_add(nw + north + ne + west, east);
        self.lemma_live_among_add(nw + north + ne + west + east, sw);
        self.lemma_live_among_add(nw + north + ne + west + east + sw, south);
        self.lemma_live_among_add(nw + north + ne + west + east + sw + south, se);
    }

    /// Two runs of points that touch `(x, y)` make one such run.
    proof fn lemma_all_touch_add(self, x: int, y: int, a: Seq<(int, int)>, b: Seq<(int, int)>)
        requires
            self.all_touch(x, y, a),
            self.all_touch(x, y, b),
        ensures
            self.all_touch(x, y, a + b),
            (a + b).len() == a.len() + b.len(),
    {
        assert forall|i: int| 0 <= i < (a + b).len() implies self.touches(
            x,
            y,
            #[trigger] (a + b)[i],
        ) by {
            if i < a.len() {
                assert((a + b)[i] == a[i]);
            } else {
                assert((a + b)[i] == b[i - a.len()]);
            }
        }
    }

    /// The neighbour points of `(x, y)` are at most eight, and each of them
    /// lies on the grid and touches `(x, y)`.
    pub proof fn lemma_neighbour_points(self, x: int, y: int)
        ensures
            self.all_touch(x, y, self.neighbour_points(x, y)),
            self.neighbour_points(x, y).len() <= 8,
    {
        let nw = self.point_if_inside(x - 1, y - 1);
        let north = self.point_if_inside(x, y - 1);
        let ne = self.point_if_inside(x + 1, y - 1);
        let west = self.point_if_inside(x - 1, y);
        let east = self.point_if_inside(x + 1, y);
        let sw = self.point_if_inside(x - 1, y + 1);
        let south = self.point_if_inside(x, y + 1);
        let se = self.point_if_inside(x + 1, y + 1);
        self.lemma_all_touch_add(x, y, nw, north);
        self.lemma_all_touch_add(x, y, nw + north, ne);
        self.lemma_all_touch_add(x, y, nw + north + ne, west);
        self.lemma_all_touch_add(x, y, nw + north + ne + west, east);
        self.lemma_all_touch_add(x, y, nw + north + ne + west + east, sw);
        self.lemma_all_touch_add(x, y, nw + north + ne + west + east + sw, south);
        self.lemma_all_touch_add(x, y, nw + north + ne + west + east + sw + south, se);
    }

    /// The changes among the first `n` points of row `y` are the dirty ones
    /// among these points, each of them once.
    pub proof fn lemma_row_changes_upto(self, y: int, n: int)
        requires
            0 <= n,
        ensures
            forall|k: int|
                0 <= k < self.row_changes_upto(y, n).len() ==> {
                    let p = #[trigger] self.row_changes_upto(y, n)[k];
                    p.1 == y && 0 <= p.0 < n && self.is_dirty(p.0, p.1)
                },
            forall|x: int|
                0 <= x < n && self.is_dirty(x, y) ==> #[trigger] self.row_changes_upto(y, n).contains(
                    (x, y),
                ),
            self.row_changes_upto(y, n).no_duplicates(),
        decreases n,
    {
        if n == 0 {
            self.lemma_row_changes_next(y, 0);
        } else {
            let less = self.row_changes_upto(y, n - 1);
            let all = self.row_changes_upto(y, n);
            self.lemma_row_changes_upto(y, n - 1);
            self.lemma_row_changes_next(y, n - 1);
            assert forall|x: int|
                0 <= x < n && self.is_dirty(x, y) implies #[trigger] all.contains((x, y)) by {
                if x < n - 1 {
                    assert(less.contains((x, y)));
                    let k = choose|k: int| 0 <= k < less.len() && less[k] == (x, y);
                    assert(all[k] == (x, y));
                } else {
                    assert(all[all.len() - 1] == (x, y));
                }
            }
        }
    }

    /// The changes of the first `m` rows are the dirty points of these rows,
    /// each of them once.
    pub proof fn lemma_changes_upto(self, m: int)
        requires
            0 <= m,
        ensures
            forall|k: int|
                0 <= k < self.changes_upto(m).len() ==> {
                    let p = #[trigger] self.changes_upto(m)[k];
                    0 <= p.1 < m && 0 <= p.0 < self.size() && self.is_dirty(p.0, p.1)
                },
            forall|x: int, y: int|
                0 <= y < m && 0 <= x < self.size() && self.is_dirty(x, y)
                    ==> #[trigger] self.changes_upto(m).contains((x, y)),
            self.changes_upto(m).no_duplicates(),
        decreases m,
    {
        if m == 0 {
            self.lemma_changes_next(0);
        } else {
            let less = self.changes_upto(m - 1);
            let row = self.row_changes(m - 1);
            let all = self.changes_upto(m);
            self.lemma_changes_upto(m - 1);
            self.lemma_changes_next(m - 1);
            self.lemma_row_changes_upto(m - 1, self.size());
            assert forall|x: int, y: int|
                0 <= y < m && 0 <= x < self.size() && self.is_dirty(x, y) implies #[trigger] all
                    .contains((x, y)) by {
                if y < m - 1 {
                    assert(less.contains((x, y)));
                    let k = choose|k: int| 0 <= k < less.len() && less[k] == (x, y);
                    assert(all[k] == (x, y));
                } else {
                    assert(row.contains((x, y)));
                    let k = choose|k: int| 0 <= k < row.len() && row[k] == (x, y);
                    assert(all[less.len() + k] == (x, y));
                }
            }
            vstd::seq_lib::lemma_no_dup_in_concat(less, row);
        }
    }
}

} // verus!
