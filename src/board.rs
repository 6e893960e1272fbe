use vstd::prelude::*;
use vstd::arithmetic::div_mod::lemma_fundamental_div_mod_converse;
use crate::counting::{count_where, lemma_count_update, lemma_count_bound};

verus! {

/// What the player sees of a cell.
#[derive(Clone, Copy, Debug, PartialEq, Eq, Structural)]
pub enum MineState {
    Covered,
    Uncovered,
    Flagged,
}

/// One position of the grid.
#[derive(Clone, Copy, Debug)]
pub struct Square {
    pub state: MineState,
    pub is_mine: bool,
    /// Number of mines among the adjacent cells, once it has been computed.
    pub neighbour_cache: Option<u64>,
}

/// A Minesweeper board: a `width` by `height` grid stored row by row.
pub struct Board {
    pub width: usize,
    pub height: usize,
    pub board: Vec<Square>,
    pub selected_square: (usize, usize),
    pub highlight_square: Option<(usize, usize)>,
    /// Uncovered cells, plus one for each mine: the game is won when it reaches the cell count.
    pub uncovered_squares: usize,
    pub alive: bool,
    pub started: bool,
    pub won: bool,
}

pub open spec fn is_mine_cell() -> spec_fn(Square) -> bool {
    |c: Square| c.is_mine
}

/// Cells that count towards `uncovered_squares`: mines, and uncovered cells.
pub open spec fn is_credited_cell() -> spec_fn(Square) -> bool {
    |c: Square| c.is_mine || c.state == MineState::Uncovered
}

pub open spec fn is_open_cell() -> spec_fn(Square) -> bool {
    |c: Square| c.state != MineState::Uncovered
}

/// Number of mines on a grid.
pub open spec fn mine_total(s: Seq<Square>) -> nat {
    count_where(s, is_mine_cell())
}

pub open spec fn credited_total(s: Seq<Square>) -> nat {
    count_where(s, is_credited_cell())
}

/// Number of cells that are not uncovered.
pub open spec fn open_total(s: Seq<Square>) -> nat {
    count_where(s, is_open_cell())
}

/// Two distinct positions that touch, diagonals included.
pub open spec fn adjacent(x1: int, y1: int, x2: int, y2: int) -> bool {
    &&& (x1 != x2 || y1 != y2)
    &&& -1 <= x1 - x2 <= 1
    &&& -1 <= y1 - y2 <= 1
}

/// What the loss reveal makes of a cell: everything is shown but correctly flagged mines.
pub open spec fn revealed_state(c: Square) -> MineState {
    if c.state == MineState::Flagged && c.is_mine {
        MineState::Flagged
    } else {
        MineState::Uncovered
    }
}

pub proof fn lemma_index(w: int, h: int, x: int, y: int)
    requires
        0 <= x < w,
        0 <= y < h,
    ensures
        0 <= y * w + x < w * h,
        (y * w + x) % w == x,
        (y * w + x) / w == y,
{
    lemma_fundamental_div_mod_converse(y * w + x, w, y, x);
    assert(0 <= y * w + x < w * h) by (nonlinear_arith)
        requires
            0 <= x < w,
            0 <= y < h,
    ;
}

pub proof fn lemma_coords(w: int, h: int, i: int)
    requires
        0 < w,
        0 <= i < w * h,
    ensures
        0 <= i % w < w,
        0 <= i / w < h,
        (i / w) * w + i % w == i,
{
    let q = i / w;
    let r = i % w;
    assert(i == w * q + r && 0 <= r < w) by {
        vstd::arithmetic::div_mod::lemma_fundamental_div_mod(i, w);
    }
    assert(0 <= q < h) by (nonlinear_arith)
        requires
            i == w * q + r,
            0 <= r < w,
            0 <= i < w * h,
            0 < w,
    ;
    assert(q * w == w * q) by (nonlinear_arith);
}

impl Board {
    pub open spec fn in_bounds(self, x: int, y: int) -> bool {
        0 <= x < self.width && 0 <= y < self.height
    }

    pub open spec fn index(self, x: int, y: int) -> int {
        y * self.width + x
    }

    pub open spec fn col(self, i: int) -> int {
        i % (self.width as int)
    }

    pub open spec fn row(self, i: int) -> int {
        i / (self.width as int)
    }

    pub open spec fn cell(self, x: int, y: int) -> Square {
        self.board@[self.index(x, y)]
    }

    pub open spec fn mine_at(self, x: int, y: int) -> bool {
        self.in_bounds(x, y) && self.cell(x, y).is_mine
    }

    /// The `k`-th of the nine positions around `(x, y)`, column-major from the upper left.
    pub open spec fn offset_x(x: int, k: int) -> int {
        x + k / 3 - 1
    }

    pub open spec fn offset_y(y: int, k: int) -> int {
        y + k % 3 - 1
    }

    /// Mines among the first `k` of the nine positions around `(x, y)`, the centre excluded.
    pub open spec fn mines_upto(self, x: int, y: int, k: int) -> nat
        decreases k,
    {
        if k <= 0 {
            0
        } else {
            self.mines_upto(x, y, k - 1) + if k - 1 != 4 && self.mine_at(
                Self::offset_x(x, k - 1),
                Self::offset_y(y, k - 1),
            ) {
                1nat
            } else {
                0nat
            }
        }
    }

    /// Number of mines in the up to eight cells adjacent to `(x, y)`.
    pub open spec fn mines_around(self, x: int, y: int) -> nat {
        self.mines_upto(x, y, 9)
    }

    /// In-bounds positions among the first `k` of the nine around `(x, y)`, in visiting order.
    pub open spec fn neighbours_upto(self, x: int, y: int, k: int, include_self: bool) -> Seq<
        (usize, usize),
    >
        decreases k,
    {
        if k <= 0 {
            seq![]
        } else {
            let s = self.neighbours_upto(x, y, k - 1, include_self);
            let nx = Self::offset_x(x, k - 1);
            let ny = Self::offset_y(y, k - 1);
            if (k - 1 != 4 || include_self) && self.in_bounds(nx, ny) {
                s.push((nx as usize, ny as usize))
            } else {
                s
            }
        }
    }

    pub open spec fn is_over(self) -> bool {
        !self.alive || self.won
    }

    pub open spec fn cell_count(self) -> int {
        self.width * self.height
    }

    /// The fields other than the grid are those of `other`.
    pub open spec fn same_except_board(self, other: Board) -> bool {
        &&& self.width == other.width
        &&& self.height == other.height
        &&& self.selected_square == other.selected_square
        &&& self.highlight_square == other.highlight_square
        &&& self.uncovered_squares == other.uncovered_squares
        &&& self.alive == other.alive
        &&& self.started == other.started
        &&& self.won == other.won
    }

    pub open spec fn caches_valid(self) -> bool {
        forall|i: int|
            0 <= i < self.board@.len() ==> match (#[trigger] self.board@[i]).neighbour_cache {
                Some(v) => v == self.mines_around(self.col(i), self.row(i)),
                None => true,
            }
    }

    /// The board's invariant.
    pub open spec fn wf(self) -> bool {
        &&& self.width > 0
        &&& self.height > 0
        &&& self.board@.len() == self.cell_count()
        &&& self.in_bounds(self.selected_square.0 as int, self.selected_square.1 as int)
        &&& (self.highlight_square matches Some(h) ==> self.in_bounds(h.0 as int, h.1 as int))
        &&& self.caches_valid()
        &&& !self.started ==> {
            &&& self.alive
            &&& !self.won
            &&& forall|i: int|
                0 <= i < self.board@.len() ==> (#[trigger] self.board@[i]).neighbour_cache
                    is None && self.board@[i].state != MineState::Uncovered
        }
        &&& self.alive ==> {
            &&& self.uncovered_squares == credited_total(self.board@)
            &&& forall|i: int|
                0 <= i < self.board@.len() && (#[trigger] self.board@[i]).state
                    == MineState::Uncovered ==> !self.board@[i].is_mine
        }
        &&& self.alive && self.started ==> (self.won <==> self.uncovered_squares
            == self.cell_count())
        &&& !self.alive ==> forall|i: int|
            0 <= i < self.board@.len() ==> (#[trigger] self.board@[i]).state == revealed_state(
                self.board@[i],
            )
        &&& !self.alive ==> exists|i: int|
            0 <= i < self.board@.len() && (#[trigger] self.board@[i]).state == MineState::Uncovered
                && self.board@[i].is_mine
    }

    pub proof fn lemma_mine_at_index(self, x: int, y: int)
        requires
            self.board@.len() == self.cell_count(),
            self.in_bounds(x, y),
        ensures
            0 <= y * self.width <= self.index(x, y) < self.board@.len(),
            self.col(self.index(x, y)) == x,
            self.row(self.index(x, y)) == y,
    {
        lemma_index(self.width as int, self.height as int, x, y);
        assert(0 <= y * self.width) by (nonlinear_arith)
            requires
                0 <= y,
                self.width > 0,
        ;
    }

    /// Boards with the same dimensions and the same mines count the same mines around each cell.
    pub proof fn lemma_same_mines(self, other: Board)
        requires
            self.width == other.width,
            self.height == other.height,
            self.board@.len() == self.cell_count(),
            other.board@.len() == self.board@.len(),
            forall|i: int|
                0 <= i < self.board@.len() ==> (#[trigger] self.board@[i]).is_mine
                    == other.board@[i].is_mine,
        ensures
            forall|x: int, y: int| #[trigger]
                self.mines_around(x, y) == other.mines_around(x, y),
    {
        assert forall|x: int, y: int| #[trigger] self.mine_at(x, y) == other.mine_at(x, y) by {
            if self.in_bounds(x, y) {
                self.lemma_mine_at_index(x, y);
            }
        }
        assert forall|x: int, y: int| #[trigger]
            self.mines_around(x, y) == other.mines_around(x, y) by {
            reveal_with_fuel(Board::mines_upto, 10);
        }
    }

    /// No cell next to a cell without adjacent mines is a mine.
    pub proof fn lemma_around_zero(self, x: int, y: int, nx: int, ny: int)
        requires
            self.mines_around(x, y) == 0,
            self.in_bounds(nx, ny),
            adjacent(x, y, nx, ny),
        ensures
            !self.mine_at(nx, ny),
    {
        reveal_with_fuel(Board::mines_upto, 10);
    }

    /// Cell `(x, y)`.
    pub fn get(&self, x: usize, y: usize) -> (r: &Square)
        requires
            self.board@.len() == self.cell_count(),
            x < self.width,
            y < self.height,
        ensures
            *r == self.cell(x as int, y as int),
    {
        proof {
            self.lemma_mine_at_index(x as int, y as int);
        }
        let cells = self.board.len();
        assert(y * self.width + x < cells);
        &self.board[y * self.width + x]
    }

    /// Cell `(x, y)`, to be changed in place.
    pub fn get_mut(&mut self, x: usize, y: usize) -> (r: &mut Square)
        requires
            old(self).board@.len() == old(self).cell_count(),
            x < old(self).width,
            y < old(self).height,
        ensures
            *r == old(self).cell(x as int, y as int),
            final(self).board@ == old(self).board@.update(
                old(self).index(x as int, y as int),
                *final(r),
            ),
            final(self).same_except_board(*old(self)),
    {
        proof {
            self.lemma_mine_at_index(x as int, y as int);
        }
        let w = self.width;
        let cells = self.board.len();
        assert(y * w + x < cells);
        &mut self.board[y * w + x]
    }
    /// Number of mines adjacent to `(x, y)`; kept in the cell once the mine layout is final.
    #[verifier::rlimit(40)]
    pub fn neighbours(&mut self, x: usize, y: usize) -> (r: u64)
        requires
            old(self).wf(),
            x < old(self).width,
            y < old(self).height,
        ensures
            r == old(self).mines_around(x as int, y as int),
            final(self).wf(),
            final(self).same_except_board(*old(self)),
            final(self).board@.len() == old(self).board@.len(),
            forall|i: int|
                0 <= i < old(self).board@.len() ==> (#[trigger] final(self).board@[i]).state
                    == old(self).board@[i].state && final(self).board@[i].is_mine
                    == old(self).board@[i].is_mine,
            forall|i: int|
                0 <= i < old(self).board@.len() && i != old(self).index(x as int, y as int)
                    ==> #[trigger] final(self).board@[i] == old(self).board@[i],
            final(self).board@ == if old(self).started {
                old(self).board@.update(
                    old(self).index(x as int, y as int),
                    Square { neighbour_cache: Some(r), ..old(self).cell(x as int, y as int) },
                )
            } else {
                old(self).board@
            },
    {
        match self.get(x, y).neighbour_cache {
            Some(v) => {
                proof {
                    self.lemma_mine_at_index(x as int, y as int);
                    let t = self.index(x as int, y as int);
                    assert(self.board@.update(t, Square { neighbour_cache: Some(v), ..self.board@[t] }) =~= self.board@);
                }
                v
            },
            None => {
                let mut count: u64 = 0;
                let mut k: usize = 0;
                while k < 9
                    invariant
                        self.board@.len() == self.cell_count(),
                        x < self.width,
                        y < self.height,
                        0 <= k <= 9,
                        count == self.mines_upto(x as int, y as int, k as int),
                        count <= k,
                    decreases 9 - k,
                {
                    let dx = k / 3;
                    let dy = k % 3;
                    if k != 4 && (dx != 0 || x > 0) && (dx != 2 || x + 1 < self.width) && (dy != 0
                        || y > 0) && (dy != 2 || y + 1 < self.height) {
                        if self.get(x + dx - 1, y + dy - 1).is_mine {
                            count += 1;
                        }
                    }
                    k += 1;
                }
                if self.started {
                    let ghost pre = *self;
                    self.get_mut(x, y).neighbour_cache = Some(count);
                    proof {
                        pre.lemma_mine_at_index(x as int, y as int);
                        self.lemma_same_mines(pre);
                        let t = pre.index(x as int, y as int);
                        assert forall|i: int| 0 <= i < self.board@.len() implies match (
                        #[trigger] self.board@[i]).neighbour_cache {
                            Some(v) => v == self.mines_around(self.col(i), self.row(i)),
                            None => true,
                        } by {
                            if i != t {
                                assert(self.board@[i] == pre.board@[i]);
                            }
                        }
                        assert forall|i: int|
                            self.alive && 0 <= i < self.board@.len() && (#[trigger] self.board@[i]).state
                                == MineState::Uncovered implies !self.board@[i].is_mine by {
                            assert(self.board@[i].state == pre.board@[i].state);
                        }
                        if self.alive {
                            lemma_count_update(pre.board@, t, self.board@[t], is_credited_cell());
                        }
                        assert forall|i: int| 0 <= i < self.board@.len() implies (
                        #[trigger] self.board@[i]).state == revealed_state(self.board@[i])
                            || self.alive by {
                            assert(self.board@[i].state == pre.board@[i].state);
                        }
                        if !self.alive {
                            let w = choose|i: int|
                                0 <= i < pre.board@.len() && (#[trigger] pre.board@[i]).state
                                    == MineState::Uncovered && pre.board@[i].is_mine;
                            assert(self.board@[w].state == pre.board@[w].state);
                        }
                    }
                }
                count
            },
        }
    }

    /// The in-bounds positions adjacent to `(x, y)`, and `(x, y)` itself if `include_self`.
    #[verifier::rlimit(80)]
    pub fn itterate_neighbours(&self, x: usize, y: usize, include_self: bool) -> (r: Vec<
        (usize, usize),
    >)
        requires
            x < self.width,
            y < self.height,
        ensures
            r@ == self.neighbours_upto(x as int, y as int, 9, include_self),
            r@.len() <= 9,
            r@.no_duplicates(),
            forall|j: int|
                0 <= j < r@.len() ==> self.in_bounds((#[trigger] r@[j]).0 as int, r@[j].1 as int)
                    && (adjacent(x as int, y as int, r@[j].0 as int, r@[j].1 as int) || (
                include_self && r@[j] == (x, y))),
            forall|nx: int, ny: int|
                self.in_bounds(nx, ny) && adjacent(x as int, y as int, nx, ny) ==> r@.contains(
                    (nx as usize, ny as usize),
                ),
    {
        let mut r: Vec<(usize, usize)> = Vec::new();
        let mut k: usize = 0;
        while k < 9
            invariant
                x < self.width,
                y < self.height,
                0 <= k <= 9,
                r@ == self.neighbours_upto(x as int, y as int, k as int, include_self),
                r@.len() <= k,
                r@.no_duplicates(),
                forall|j: int|
                    0 <= j < r@.len() ==> ((#[trigger] r@[j]).0 - x + 1) * 3 + (r@[j].1 - y + 1) < k,
                forall|j: int|
                    0 <= j < r@.len() ==> self.in_bounds(
                        (#[trigger] r@[j]).0 as int,
                        r@[j].1 as int,
                    ) && (adjacent(x as int, y as int, r@[j].0 as int, r@[j].1 as int) || (
                    include_self && r@[j] == (x, y))),
                forall|nx: int, ny: int|
                    self.in_bounds(nx, ny) && adjacent(x as int, y as int, nx, ny) && (nx - x + 1)
                        * 3 + (ny - y + 1) < k ==> r@.contains((nx as usize, ny as usize)),
            decreases 9 - k,
        {
            let dx = k / 3;
            let dy = k % 3;
            let ghost r0 = r@;
            if (k != 4 || include_self) && (dx != 0 || x > 0) && (dx != 2 || x + 1 < self.width)
                && (dy != 0 || y > 0) && (dy != 2 || y + 1 < self.height) {
                r.push((x + dx - 1, y + dy - 1));
            }
            proof {
                assert(dx * 3 + dy == k);
                assert forall|a: int, b: int| 0 <= a < b < r@.len() implies r@[a] != r@[b] by {
                    if b < r0.len() {
                        assert(r0[a] != r0[b]);
                    } else {
                        assert(r@[a] == r0[a]);
                    }
                }
                assert forall|nx: int, ny: int|
                    self.in_bounds(nx, ny) && adjacent(x as int, y as int, nx, ny) && (nx - x + 1)
                        * 3 + (ny - y + 1) < k + 1 implies r@.contains(
                    (nx as usize, ny as usize),
                ) by {
                    if (nx - x + 1) * 3 + (ny - y + 1) < k {
                        assert(r0.contains((nx as usize, ny as usize)));
                        let j = choose|j: int| 0 <= j < r0.len() && r0[j] == (
                        nx as usize, ny as usize);
                        assert(r@[j] == r0[j]);
                    } else {
                        assert(r@[r@.len() - 1] == (nx as usize, ny as usize));
                    }
                }
            }
            k += 1;
        }
        r
    }

    /// Shows every cell but the flagged mines: the reveal on a loss.
    pub fn uncover_all(&mut self)
        requires
            old(self).board@.len() == old(self).cell_count(),
        ensures
            final(self).same_except_board(*old(self)),
            final(self).board@.len() == old(self).board@.len(),
            forall|i: int|
                0 <= i < old(self).board@.len() ==> (#[trigger] final(self).board@[i]) == (Square {
                    state: revealed_state(old(self).board@[i]),
                    ..old(self).board@[i]
                }),
    {
        let ghost start = *self;
        let mut i: usize = 0;
        let n = self.board.len();
        while i < n
            invariant
                n == self.board@.len(),
                n == start.board@.len(),
                self.same_except_board(start),
                0 <= i <= n,
                forall|j: int|
                    0 <= j < n ==> (#[trigger] self.board@[j]) == if j < i {
                        Square { state: revealed_state(start.board@[j]), ..start.board@[j] }
                    } else {
                        start.board@[j]
                    },
            decreases n - i,
        {
            let sq = self.board[i];
            let state = match sq.state {
                MineState::Covered => MineState::Uncovered,
                MineState::Uncovered => MineState::Uncovered,
                MineState::Flagged => if !sq.is_mine {
                    MineState::Uncovered
                } else {
                    MineState::Flagged
                },
            };
            self.board.set(i, Square { state, ..sq });
            i += 1;
        }
    }
    /// One uncover command on `(x, y)`, without the cascade; says whether to cascade from it.
    fn uncover_step(&mut self, x: usize, y: usize) -> (cascade: bool)
        requires
            old(self).wf(),
            x < old(self).width,
            y < old(self).height,
        ensures
            final(self).wf(),
            final(self).width == old(self).width,
            final(self).height == old(self).height,
            final(self).selected_square == old(self).selected_square,
            final(self).highlight_square == old(self).highlight_square,
            final(self).uncovered_squares >= old(self).uncovered_squares,
            old(self).is_over() ==> final(self).board@ == old(self).board@ && final(self).same_except_board(*old(self)) && !cascade,
            !old(self).is_over() && old(self).cell(x as int, y as int).state
                == MineState::Flagged ==> final(self).board@ == old(self).board@.update(
                old(self).index(x as int, y as int),
                Square { state: MineState::Covered, ..old(self).cell(x as int, y as int) },
            ) && final(self).same_except_board(*old(self)) && !cascade,
            !old(self).is_over() && old(self).cell(x as int, y as int).state
                != MineState::Flagged ==> final(self).started,
            !old(self).is_over() && old(self).cell(x as int, y as int).state
                == MineState::Uncovered ==> final(self).board@ == old(self).board@
                && final(self).uncovered_squares == old(self).uncovered_squares && final(self).alive == old(self).alive && final(self).won == old(self).won && !cascade,
            !old(self).is_over() && old(self).cell(x as int, y as int).state
                == MineState::Covered ==> old(self).step_uncovers(*final(self), x as int, y as int)
                && cascade == (final(self).alive && final(self).mines_around(x as int, y as int)
                == 0),
    {
        let ghost pre = *self;
        let ghost t = self.index(x as int, y as int);
        proof {
            self.lemma_mine_at_index(x as int, y as int);
        }
        if !self.alive || self.won {
            return false;
        }
        if self.get(x, y).state == MineState::Flagged {
            self.get_mut(x, y).state = MineState::Covered;
            proof {
                self.lemma_same_mines(pre);
                lemma_count_update(pre.board@, t, self.board@[t], is_credited_cell());
                assert forall|i: int| 0 <= i < self.board@.len() && i != t implies #[trigger]
                    self.board@[i] == pre.board@[i] by {}
            }
            return false;
        }
        if !self.started && self.get(x, y).is_mine {
            self.get_mut(x, y).is_mine = false;
            proof {
                lemma_count_update(pre.board@, t, self.board@[t], is_credited_cell());
                lemma_count_update(pre.board@, t, self.board@[t], is_mine_cell());
            }
            self.uncovered_squares -= 1;
        }
        let ghost mid = *self;
        self.started = true;
        if self.get(x, y).state == MineState::Uncovered {
            return false;
        }
        let cells = self.board.len();
        proof {
            let up = Square { state: MineState::Uncovered, ..mid.board@[t] };
            lemma_count_update(mid.board@, t, up, is_credited_cell());
            lemma_count_bound(mid.board@.update(t, up), is_credited_cell());
            lemma_count_bound(mid.board@, is_credited_cell());
            assert(mid.uncovered_squares == credited_total(mid.board@));
            assert(mid.uncovered_squares < cells);
        }
        self.get_mut(x, y).state = MineState::Uncovered;
        self.uncovered_squares += 1;
        let ghost opened = *self;
        if self.get(x, y).is_mine {
            self.alive = false;
            self.uncover_all();
        }
        if self.uncovered_squares == self.board.len() {
            self.won = true;
        }
        proof {
            assert forall|i: int| 0 <= i < self.board@.len() implies #[trigger]
                self.board@[i].is_mine == mid.board@[i].is_mine by {}
            self.lemma_same_mines(mid);
            crate::counting::lemma_count_same(self.board@, mid.board@, is_mine_cell(), is_mine_cell());
            if self.alive {
                assert(self.board@ == opened.board@);
            }
            else {
                assert(self.board@[t].state == MineState::Uncovered && self.board@[t].is_mine);
            }
        }
        if !self.alive {
            return false;
        }
        let ghost before = *self;
        let count = self.neighbours(x, y);
        proof {
            self.lemma_same_mines(before);
            crate::counting::lemma_count_same(self.board@, before.board@, is_mine_cell(), is_mine_cell());
        }
        count == 0
    }

    /// What a step that uncovers the covered cell `(x, y)` makes of the board: on a mine that
    /// is not the first uncover, the game is lost and the board revealed; otherwise the cell
    /// is uncovered and, on the first uncover, stops being a mine.
    pub open spec fn step_uncovers(self, after: Board, x: int, y: int) -> bool {
        let t = self.index(x, y);
        let hit = self.cell(x, y).is_mine && self.started;
        let moved = self.cell(x, y).is_mine && !self.started;
        &&& after.board@.len() == self.board@.len()
        &&& after.started
        &&& after.alive == !hit
        &&& after.board@[t].state == MineState::Uncovered
        &&& after.board@[t].is_mine == hit
        &&& forall|i: int|
            0 <= i < self.board@.len() && i != t ==> (#[trigger] after.board@[i]).is_mine
                == self.board@[i].is_mine && after.board@[i].state == if hit {
                revealed_state(self.board@[i])
            } else {
                self.board@[i].state
            }
        &&& mine_total(after.board@) + (if moved { 1int } else { 0int }) == mine_total(self.board@)
        &&& !hit ==> after.uncovered_squares == self.uncovered_squares + if moved {
            0int
        } else {
            1int
        }
        &&& !hit ==> after.won == (after.uncovered_squares == self.cell_count())
    }
    /// Cell `i` went from not uncovered on `self` to uncovered on `after`.
    pub open spec fn newly_uncovered(self, after: Board, i: int) -> bool {
        &&& after.board@[i].state == MineState::Uncovered
        &&& self.board@[i].state != MineState::Uncovered
    }

    /// Cell `i` was uncovered between `self` and `after`, and has no adjacent mine.
    pub open spec fn cascades_from(self, after: Board, i: int) -> bool {
        &&& self.newly_uncovered(after, i)
        &&& after.mines_around(after.col(i), after.row(i)) == 0
    }

    /// Cells `i` and `j` touch.
    pub open spec fn touches(self, i: int, j: int) -> bool {
        adjacent(self.col(i), self.row(i), self.col(j), self.row(j))
    }

    /// The changes an uncover may make to a cell's state: uncovering it, or taking its flag off.
    pub open spec fn allowed_change(self, after: Board, j: int) -> bool {
        ||| after.board@[j].state == self.board@[j].state
        ||| after.board@[j].state == MineState::Uncovered
        ||| self.board@[j].state == MineState::Flagged && after.board@[j].state
            == MineState::Covered
    }

    /// Every neighbour of a cell that the cascade reached without adjacent mines was uncovered,
    /// or had its flag taken off.
    pub open spec fn cascade_closed(self, after: Board) -> bool {
        forall|i: int, j: int|
            0 <= i < self.board@.len() && 0 <= j < self.board@.len() && self.cascades_from(
                after,
                i,
            ) && #[trigger] self.touches(i, j) ==> #[trigger] after.board@[j].state
                == MineState::Uncovered || (self.board@[j].state == MineState::Flagged
                && after.board@[j].state == MineState::Covered)
    }

    /// Every cell whose state changed, but the target `t`, touches a cell that the cascade
    /// reached with no mine around, named by `reasons`, and that was uncovered before it: each
    /// change goes back, by `order`, to the target.
    pub open spec fn cascade_traced(self, after: Board, t: int, reasons: Seq<int>, order: Seq<int>) -> bool {
        forall|j: int|
            0 <= j < self.board@.len() && j != t && (#[trigger] after.board@[j]).state
                != self.board@[j].state ==> 0 <= reasons[j] < self.board@.len() && self.cascades_from(after, reasons[j])
                && self.touches(reasons[j], j) && order[reasons[j]] < order[j]
    }
    /// Uncovers `(x, y)`: takes a flag off, or uncovers the cell and floods through the cells
    /// with no adjacent mine; a mine loses the game, except on the first uncover, which clears it.
    pub fn uncover(&mut self, x: usize, y: usize)
        requires
            old(self).wf(),
            x < old(self).width,
            y < old(self).height,
        ensures
            final(self).wf(),
            final(self).width == old(self).width,
            final(self).height == old(self).height,
            final(self).selected_square == old(self).selected_square,
            final(self).highlight_square == old(self).highlight_square,
            final(self).board@.len() == old(self).board@.len(),
            final(self).uncovered_squares >= old(self).uncovered_squares,
            old(self).uncover_outcome(*final(self), x as int, y as int),
    {
        let ghost start = *self;
        let ghost t = self.index(x as int, y as int);
        proof {
            self.lemma_mine_at_index(x as int, y as int);
        }
        if !self.uncover_step(x, y) {
            proof {
                if !start.is_over() && start.board@[t].state == MineState::Covered && !(start.board@[t].is_mine && start.started) {
                    assert forall|j: int| 0 <= j < self.board@.len() && j != t implies (#[trigger] self.board@[j]).state == start.board@[j].state by {}
                    assert forall|i: int| 0 <= i < self.board@.len() && i != t implies !start.newly_uncovered(*self, i) by {
                        assert(self.board@[i].state == start.board@[i].state);
                    }
                    assert(start.cascade_traced(*self, t, Seq::empty(), Seq::empty()));
                    assert(!start.cascades_from(*self, t));
                }
            }
            return;
        }
        let ghost mid = *self;
        let mut frontier = self.itterate_neighbours(x, y, false);
        let ghost mut parents: Seq<int> = Seq::new(frontier@.len(), |k: int| t);
        let ghost mut reasons: Seq<int> = Seq::new(self.board@.len(), |j: int| t);
        let ghost mut order: Seq<int> = Seq::new(self.board@.len(), |j: int| 0);
        let ghost mut tick: int = 1;
        let ghost mut first: Seq<int> = Seq::new(self.board@.len(), |j: int| t);
        proof {
            Board::lemma_cascade_start(start, mid, t, frontier@, parents, reasons);
            Board::lemma_order_start(start, mid, t, reasons, order, tick);
            Board::lemma_flags_start(start, mid, t, frontier@, parents, reasons, first);
        }
        while frontier.len() > 0
            invariant
                self.wf(),
                self.width == start.width,
                self.height == start.height,
                self.selected_square == start.selected_square,
                self.highlight_square == start.highlight_square,
                self.board@.len() == start.board@.len(),
                start.board@.len() == start.cell_count(),
                start.width > 0,
                self.alive,
                self.started,
                self.uncovered_squares >= mid.uncovered_squares,
                mid.uncovered_squares >= start.uncovered_squares,
                0 <= t < start.board@.len(),
                t == start.index(x as int, y as int),
                start.col(t) == x,
                start.row(t) == y,
                start.board@[t].state == MineState::Covered,
                self.board@[t].state == MineState::Uncovered,
                !start.is_over(),
                mid.board@[t].is_mine == false,
                mine_total(mid.board@) + (if start.board@[t].is_mine { 1int } else { 0int })
                    == mine_total(start.board@),
                forall|i: int| 0 <= i < start.board@.len() ==> (#[trigger] self.board@[i]).is_mine == mid.board@[i].is_mine,
                forall|i: int| 0 <= i < start.board@.len() && i != t ==> (#[trigger] mid.board@[i]).is_mine == start.board@[i].is_mine,
                frontier@.len() == parents.len(),
                reasons.len() == start.board@.len(),
                Board::cascade_inv(start, *self, t, frontier@, parents, reasons),
                Board::inv_order(start, *self, t, reasons, order, tick),
                Board::inv_flags(start, *self, frontier@, parents, reasons, first),
            decreases 10 * open_total(self.board@) + frontier@.len(),
        {
            let ghost fprev = frontier@;
            let ghost pprev = parents;
            proof {
                Board::lemma_frontier_item(start, *self, t, fprev, pprev, reasons, fprev.len() - 1);
            }
            let p = match frontier.pop() {
                Some(p) => p,
                None => (x, y),
            };
            let ghost par = parents.last();
            proof {
                parents = parents.drop_last();
            }
            let ghost prev = *self;
            let ghost ip = prev.index(p.0 as int, p.1 as int);
            proof {
                assert(fprev[fprev.len() - 1] == p);
                prev.lemma_mine_at_index(p.0 as int, p.1 as int);
                lemma_coords(start.width as int, start.height as int, par);
                prev.lemma_around_zero(prev.col(par), prev.row(par), p.0 as int, p.1 as int);
                assert(!prev.board@[ip].is_mine);
                if prev.won {
                    crate::counting::lemma_count_full(prev.board@, is_credited_cell(), ip);
                }
            }
            let cascade = self.uncover_step(p.0, p.1);
            let ghost stepped = *self;
            let ghost rprev = reasons;
            let ghost oprev = order;
            let ghost fsprev = first;
            proof {
                assert forall|i: int| 0 <= i < start.board@.len() implies (#[trigger] stepped.board@[i]).is_mine == prev.board@[i].is_mine && (i != ip ==> stepped.board@[i].state == prev.board@[i].state) by {}
                stepped.lemma_same_mines(prev);
                if prev.board@[ip].state == MineState::Covered && !prev.is_over() {
                    let up = Square { state: MineState::Uncovered, ..prev.board@[ip] };
                    crate::counting::lemma_count_same(stepped.board@, prev.board@.update(ip, up), is_open_cell(), is_open_cell());
                    lemma_count_update(prev.board@, ip, up, is_open_cell());
                } else {
                    crate::counting::lemma_count_same(stepped.board@, prev.board@, is_open_cell(), is_open_cell());
                }
                if stepped.board@[ip].state != prev.board@[ip].state {
                    reasons = reasons.update(ip, par);
                    order = order.update(ip, tick);
                }
                if prev.board@[ip].state == MineState::Flagged && stepped.board@[ip].state == MineState::Covered {
                    first = first.update(ip, par);
                }
            }
            let ghost mut added: Seq<(usize, usize)> = Seq::empty();
            if cascade {
                let mut more = self.itterate_neighbours(p.0, p.1, false);
                proof {
                    added = more@;
                    parents = parents + Seq::new(more@.len(), |k: int| ip);
                }
                frontier.append(&mut more);
            }
            proof {
                assert(frontier@ == fprev.drop_last() + added);
                assert(Board::cascade_step(start, prev, *self, fprev, pprev, rprev, frontier@, parents, reasons, ip, par, cascade, added));
                Board::lemma_step_frontier(start, prev, *self, fprev, pprev, rprev, frontier@, parents, reasons, ip, par, cascade, added);
                Board::lemma_step_allowed(start, prev, *self, fprev, pprev, rprev, frontier@, parents, reasons, ip, par, cascade, added);
                Board::lemma_step_reasons(start, prev, *self, t, fprev, pprev, rprev, frontier@, parents, reasons, ip, par, cascade, added);
                Board::lemma_step_closed(start, prev, *self, fprev, pprev, rprev, frontier@, parents, reasons, ip, par, cascade, added);
                Board::lemma_step_order(start, prev, *self, t, fprev, pprev, rprev, frontier@, parents, reasons, ip, par, cascade, added, oprev, order, tick);
                Board::lemma_step_flags(start, prev, *self, fprev, pprev, rprev, frontier@, parents, reasons, ip, par, cascade, added, fsprev, first);
                tick = tick + 1;
            }
        }
        proof {
            assert(frontier@ =~= Seq::<(usize, usize)>::empty());
            assert(parents =~= Seq::<int>::empty());
            Board::lemma_cascade_end(start, *self, t, reasons, order, tick);
            Board::lemma_flags_end(start, *self, t, reasons, first);
            crate::counting::lemma_count_same(self.board@, mid.board@, is_mine_cell(), is_mine_cell());
        }
    }

    /// What `uncover(x, y)` makes of the board: nothing on a finished game; a flagged cell
    /// loses its flag; an uncovered one stays as it is; a covered one is uncovered as
    /// `uncovered_by` says.
    pub open spec fn uncover_outcome(self, after: Board, x: int, y: int) -> bool {
        &&& self.is_over() ==> after.board@ == self.board@ && after.same_except_board(self)
        &&& !self.is_over() && self.cell(x, y).state == MineState::Flagged ==> after.board@
            == self.board@.update(
            self.index(x, y),
            Square { state: MineState::Covered, ..self.cell(x, y) },
        ) && after.same_except_board(self)
        &&& !self.is_over() && self.cell(x, y).state != MineState::Flagged ==> after.started
        &&& !self.is_over() && self.cell(x, y).state == MineState::Uncovered ==> after.board@
            == self.board@ && after.uncovered_squares == self.uncovered_squares && after.alive
            == self.alive && after.won == self.won
        &&& !self.is_over() && self.cell(x, y).state == MineState::Covered ==> self.uncovered_by(
            after,
            x,
            y,
        )
    }

    /// Two different cells that the cascade reached with no mine around touch cell `j`.
    pub open spec fn reached_twice(self, after: Board, j: int) -> bool {
        exists|i1: int, i2: int|
            0 <= i1 < self.board@.len() && 0 <= i2 < self.board@.len() && i1 != i2
                && self.cascades_from(after, i1) && self.cascades_from(after, i2)
                && #[trigger] self.touches(i1, j) && #[trigger] self.touches(i2, j)
    }

    /// A flagged cell ends uncovered exactly when the cascade reached it twice: the first
    /// reach only takes the flag off.
    pub open spec fn flags_settled(self, after: Board) -> bool {
        forall|j: int|
            0 <= j < self.board@.len() && self.board@[j].state == MineState::Flagged ==> (
            (#[trigger] after.board@[j]).state == MineState::Uncovered <==> self.reached_twice(after, j))
    }

    /// What uncovering the covered cell `(x, y)` makes of the board, cascade included.
    pub open spec fn uncovered_by(self, after: Board, x: int, y: int) -> bool {
        let t = self.index(x, y);
        let hit = self.cell(x, y).is_mine && self.started;
        let moved = self.cell(x, y).is_mine && !self.started;
        &&& after.started
        &&& after.alive == !hit
        &&& after.board@[t].state == MineState::Uncovered
        &&& after.board@[t].is_mine == hit
        &&& mine_total(after.board@) + (if moved { 1int } else { 0int }) == mine_total(self.board@)
        &&& forall|i: int|
            0 <= i < self.board@.len() && i != t ==> (#[trigger] after.board@[i]).is_mine
                == self.board@[i].is_mine
        &&& hit ==> forall|i: int|
            0 <= i < self.board@.len() && i != t ==> (#[trigger] after.board@[i]).state
                == revealed_state(self.board@[i])
        &&& !hit ==> {
            &&& forall|j: int| 0 <= j < self.board@.len() ==> #[trigger] self.allowed_change(after, j)
            &&& self.cascade_closed(after)
            &&& exists|reasons: Seq<int>, order: Seq<int>| #[trigger] self.cascade_traced(after, t, reasons, order)
            &&& self.flags_settled(after)
        }
    }
}

} // verus!
