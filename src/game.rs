use vstd::prelude::*;
use crate::board::{Board, MineState, Square, mine_total, is_mine_cell, is_credited_cell};
use crate::counting::{lemma_count_push, lemma_count_same, lemma_count_update};

verus! {

/// A player command, as the key that was pressed gives it.
#[derive(Clone, Copy, Debug, PartialEq, Eq, Structural)]
pub enum Command {
    Quit,
    Right,
    Left,
    Down,
    Up,
    Uncover,
    Flag,
    Highlight,
    Ignore,
}

/// Where the game stands.
#[derive(Clone, Copy, Debug, PartialEq, Eq, Structural)]
pub enum GameStatus {
    Playing,
    Lost,
    Won,
}

/// What a renderer shows of a cell.
#[derive(Clone, Copy, Debug, PartialEq, Eq, Structural)]
pub enum CellView {
    Covered,
    Flagged,
    Mine,
    Count(u64),
}

pub open spec fn command_spec(key: u8) -> Command {
    if key == 3 {
        Command::Quit
    } else if key == 77 || key == 100 {
        Command::Right
    } else if key == 75 || key == 97 {
        Command::Left
    } else if key == 80 || key == 115 {
        Command::Down
    } else if key == 72 || key == 119 {
        Command::Up
    } else if key == 32 || key == 13 {
        Command::Uncover
    } else if key == 102 {
        Command::Flag
    } else if key == 104 {
        Command::Highlight
    } else {
        Command::Ignore
    }
}

/// The command of a key code: arrows (as the second byte of their escape) or WASD move, space
/// or enter uncovers, `f` flags, `h` highlights, Ctrl-C quits.
pub fn command_of_key(key: u8) -> (r: Command)
    ensures
        r == command_spec(key),
{
    match key {
        3 => Command::Quit,
        77 | 100 => Command::Right,
        75 | 97 => Command::Left,
        80 | 115 => Command::Down,
        72 | 119 => Command::Up,
        32 | 13 => Command::Uncover,
        102 => Command::Flag,
        104 => Command::Highlight,
        _ => Command::Ignore,
    }
}

/// Relies on rand's `Rng::gen_range` over the thread-local generator: a draw from `1..=100`.
#[verifier::external_body]
fn roll_percent() -> (r: u64)
    ensures
        1 <= r <= 100,
{
    rand::Rng::gen_range(&mut rand::thread_rng(), 1u64..=100)
}

/// A random mine layout of `cells` cells: each is a mine when a draw from `1..=100` is below
/// `mine_chance`, independently of the others.
pub fn mine_layout(cells: usize, mine_chance: u64) -> (r: Vec<bool>)
    ensures
        r@.len() == cells,
        mine_chance <= 1 ==> forall|i: int| 0 <= i < cells ==> !#[trigger] r@[i],
        mine_chance > 100 ==> forall|i: int| 0 <= i < cells ==> #[trigger] r@[i],
{
    let mut r: Vec<bool> = Vec::new();
    let mut i: usize = 0;
    while i < cells
        invariant
            0 <= i <= cells,
            r@.len() == i,
            mine_chance <= 1 ==> forall|j: int| 0 <= j < i ==> !#[trigger] r@[j],
            mine_chance > 100 ==> forall|j: int| 0 <= j < i ==> #[trigger] r@[j],
        decreases cells - i,
    {
        let roll = roll_percent();
        r.push(roll < mine_chance);
        i += 1;
    }
    r
}

impl Board {
    /// A fresh board of `width` by `height` cells whose mines are `mines`, row by row.
    pub fn new(width: usize, height: usize, mines: &Vec<bool>) -> (b: Board)
        requires
            width > 0,
            height > 0,
            mines@.len() == width * height,
        ensures
            b.wf(),
            b.width == width,
            b.height == height,
            b.board@.len() == mines@.len(),
            forall|i: int|
                0 <= i < mines@.len() ==> #[trigger] b.board@[i] == (Square {
                    state: MineState::Covered,
                    is_mine: mines@[i],
                    neighbour_cache: None,
                }),
            b.selected_square == (0usize, 0usize),
            b.highlight_square.is_none(),
            b.uncovered_squares == mine_total(b.board@),
            b.alive,
            !b.started,
            !b.won,
    {
        let mut cells: Vec<Square> = Vec::new();
        let mut count: usize = 0;
        let mut i: usize = 0;
        while i < mines.len()
            invariant
                0 <= i <= mines@.len(),
                cells@.len() == i,
                count == mine_total(cells@),
                forall|j: int|
                    0 <= j < i ==> #[trigger] cells@[j] == (Square {
                        state: MineState::Covered,
                        is_mine: mines@[j],
                        neighbour_cache: None,
                    }),
            decreases mines@.len() - i,
        {
            let sq = Square { state: MineState::Covered, is_mine: mines[i], neighbour_cache: None };
            proof {
                lemma_count_push(cells@, sq, is_mine_cell());
                crate::counting::lemma_count_bound(cells@, is_mine_cell());
            }
            cells.push(sq);
            if mines[i] {
                count += 1;
            }
            i += 1;
        }
        proof {
            lemma_count_same(cells@, cells@, is_credited_cell(), is_mine_cell());
        }
        Board {
            width,
            height,
            board: cells,
            selected_square: (0, 0),
            highlight_square: None,
            uncovered_squares: count,
            alive: true,
            started: false,
            won: false,
        }
    }

    /// A fresh board with a random layout, as `mine_layout` draws it.
    pub fn random(width: usize, height: usize, mine_chance: u64) -> (b: Board)
        requires
            width > 0,
            height > 0,
            width * height <= usize::MAX,
        ensures
            b.wf(),
            b.width == width,
            b.height == height,
            forall|i: int|
                0 <= i < b.board@.len() ==> (#[trigger] b.board@[i]).state == MineState::Covered
                    && b.board@[i].neighbour_cache.is_none(),
            mine_chance <= 1 ==> mine_total(b.board@) == 0,
            mine_chance <= 1 ==> forall|i: int|
                0 <= i < b.board@.len() ==> !(#[trigger] b.board@[i]).is_mine,
            mine_chance > 100 ==> forall|i: int|
                0 <= i < b.board@.len() ==> (#[trigger] b.board@[i]).is_mine,
            b.selected_square == (0usize, 0usize),
            b.highlight_square.is_none(),
            b.alive,
            !b.started,
            !b.won,
    {
        let mines = mine_layout(width * height, mine_chance);
        let b = Board::new(width, height, &mines);
        proof {
            if mine_chance <= 1 {
                crate::counting::lemma_count_none(b.board@, is_mine_cell());
            }
        }
        b
    }
}

impl Board {
    /// What `toggle_flag(x, y)` makes of the board: covered and flagged swap, unless the cell
    /// is uncovered or the game finished.
    pub open spec fn flag_outcome(self, after: Board, x: int, y: int) -> bool {
        &&& after.same_except_board(self)
        &&& after.board@ == if self.is_over() {
            self.board@
        } else {
            match self.cell(x, y).state {
                MineState::Covered => self.board@.update(
                    self.index(x, y),
                    Square { state: MineState::Flagged, ..self.cell(x, y) },
                ),
                MineState::Flagged => self.board@.update(
                    self.index(x, y),
                    Square { state: MineState::Covered, ..self.cell(x, y) },
                ),
                MineState::Uncovered => self.board@,
            }
        }
    }

    pub open spec fn status_spec(self) -> GameStatus {
        if !self.alive {
            GameStatus::Lost
        } else if self.won {
            GameStatus::Won
        } else {
            GameStatus::Playing
        }
    }

    /// Lost once a mine was uncovered, won once every safe cell is; playing otherwise.
    pub fn status(&self) -> (r: GameStatus)
        ensures
            r == self.status_spec(),
    {
        if !self.alive {
            GameStatus::Lost
        } else if self.won {
            GameStatus::Won
        } else {
            GameStatus::Playing
        }
    }

    /// The selected cell.
    pub fn cursor(&self) -> (r: (usize, usize))
        ensures
            r == self.selected_square,
    {
        self.selected_square
    }

    /// Hands out the highlighted position, and clears it.
    pub fn take_highlight(&mut self) -> (r: Option<(usize, usize)>)
        requires
            old(self).wf(),
        ensures
            r == old(self).highlight_square,
            final(self).highlight_square.is_none(),
            final(self).wf(),
            final(self).board@ == old(self).board@,
            final(self).selected_square == old(self).selected_square,
            final(self).uncovered_squares == old(self).uncovered_squares,
            final(self).width == old(self).width,
            final(self).height == old(self).height,
            final(self).alive == old(self).alive,
            final(self).started == old(self).started,
            final(self).won == old(self).won,
    {
        let ghost pre = *self;
        let r = self.highlight_square;
        self.highlight_square = None;
        proof {
            self.lemma_same_mines(pre);
        }
        r
    }

    /// Covered and flagged swap; an uncovered cell, or a finished game, is left alone.
    pub fn toggle_flag(&mut self, x: usize, y: usize)
        requires
            old(self).wf(),
            x < old(self).width,
            y < old(self).height,
        ensures
            final(self).wf(),
            final(self).same_except_board(*old(self)),
            old(self).flag_outcome(*final(self), x as int, y as int),
    {
        if !self.alive || self.won {
            return;
        }
        let ghost pre = *self;
        let ghost t = self.index(x as int, y as int);
        proof {
            self.lemma_mine_at_index(x as int, y as int);
        }
        let next = match self.get(x, y).state {
            MineState::Covered => MineState::Flagged,
            MineState::Uncovered => MineState::Uncovered,
            MineState::Flagged => MineState::Covered,
        };
        if next != MineState::Uncovered {
            self.get_mut(x, y).state = next;
            proof {
                self.lemma_same_mines(pre);
                lemma_count_update(pre.board@, t, self.board@[t], is_credited_cell());
                assert forall|i: int| 0 <= i < self.board@.len() && i != t implies #[trigger]
                    self.board@[i] == pre.board@[i] by {}
            }
        }
    }

    /// Moves the cursor one step; a step off the board is ignored.
    pub fn move_cursor(&mut self, dx: i8, dy: i8)
        requires
            old(self).wf(),
            -1 <= dx <= 1,
            -1 <= dy <= 1,
        ensures
            final(self).wf(),
            final(self).board@ == old(self).board@,
            final(self).width == old(self).width,
            final(self).height == old(self).height,
            final(self).highlight_square == old(self).highlight_square,
            final(self).uncovered_squares == old(self).uncovered_squares,
            final(self).alive == old(self).alive,
            final(self).started == old(self).started,
            final(self).won == old(self).won,
            final(self).selected_square.0 == if 0 <= old(self).selected_square.0 + dx < old(
                self,
            ).width {
                old(self).selected_square.0 + dx
            } else {
                old(self).selected_square.0 as int
            },
            final(self).selected_square.1 == if 0 <= old(self).selected_square.1 + dy < old(
                self,
            ).height {
                old(self).selected_square.1 + dy
            } else {
                old(self).selected_square.1 as int
            },
    {
        let (x, y) = self.selected_square;
        let nx = if dx > 0 && x + 1 < self.width {
            x + 1
        } else if dx < 0 && x > 0 {
            x - 1
        } else {
            x
        };
        let ny = if dy > 0 && y + 1 < self.height {
            y + 1
        } else if dy < 0 && y > 0 {
            y - 1
        } else {
            y
        };
        let ghost pre = *self;
        self.selected_square = (nx, ny);
        proof {
            self.lemma_same_mines(pre);
        }
    }

    /// What a renderer shows of cell `(x, y)`.
    pub fn cell_view(&mut self, x: usize, y: usize) -> (r: CellView)
        requires
            old(self).wf(),
            x < old(self).width,
            y < old(self).height,
        ensures
            final(self).wf(),
            final(self).same_except_board(*old(self)),
            final(self).board@.len() == old(self).board@.len(),
            forall|i: int|
                0 <= i < old(self).board@.len() ==> (#[trigger] final(self).board@[i]).state
                    == old(self).board@[i].state && final(self).board@[i].is_mine
                    == old(self).board@[i].is_mine,
            forall|i: int|
                0 <= i < old(self).board@.len() && i != old(self).index(x as int, y as int)
                    ==> #[trigger] final(self).board@[i] == old(self).board@[i],
            r == match old(self).cell(x as int, y as int).state {
                MineState::Covered => CellView::Covered,
                MineState::Flagged => CellView::Flagged,
                MineState::Uncovered => if old(self).cell(x as int, y as int).is_mine {
                    CellView::Mine
                } else {
                    CellView::Count(old(self).mines_around(x as int, y as int) as u64)
                },
            },
    {
        let sq = *self.get(x, y);
        match sq.state {
            MineState::Covered => CellView::Covered,
            MineState::Flagged => CellView::Flagged,
            MineState::Uncovered => if sq.is_mine {
                CellView::Mine
            } else {
                CellView::Count(self.neighbours(x, y))
            },
        }
    }
}

impl Board {
    /// Marks the selected cell for highlighting until the next `take_highlight`.
    pub fn set_highlight(&mut self)
        requires
            old(self).wf(),
        ensures
            final(self).wf(),
            final(self).highlight_square == Some(old(self).selected_square),
            final(self).board@ == old(self).board@,
            final(self).selected_square == old(self).selected_square,
            final(self).uncovered_squares == old(self).uncovered_squares,
            final(self).width == old(self).width,
            final(self).height == old(self).height,
            final(self).alive == old(self).alive,
            final(self).started == old(self).started,
            final(self).won == old(self).won,
    {
        let ghost pre = *self;
        self.highlight_square = Some(self.selected_square);
        proof {
            self.lemma_same_mines(pre);
        }
    }

    /// Carries out one command on the selected cell or the cursor; a finished game takes none.
    /// Says whether to go on, which is false on `Quit` alone.
    pub fn apply(&mut self, cmd: Command) -> (go_on: bool)
        requires
            old(self).wf(),
        ensures
            final(self).wf(),
            go_on == (cmd != Command::Quit),
            final(self).width == old(self).width,
            final(self).height == old(self).height,
            final(self).board@.len() == old(self).board@.len(),
            final(self).uncovered_squares >= old(self).uncovered_squares,
            old(self).is_over() || cmd == Command::Quit || cmd == Command::Ignore ==> final(self).board@ == old(self).board@
                && final(self).same_except_board(*old(self)),
            !old(self).is_over() && (cmd == Command::Left || cmd == Command::Right || cmd
                == Command::Up || cmd == Command::Down || cmd == Command::Highlight) ==> final(self).board@
                == old(self).board@ && final(self).uncovered_squares == old(self).uncovered_squares
                && final(self).alive == old(self).alive && final(self).won == old(self).won,
            !old(self).is_over() && cmd == Command::Highlight ==> final(self).highlight_square == Some(
                old(self).selected_square,
            ),
            !old(self).is_over() && cmd == Command::Right ==> final(self).selected_square == (
                if old(self).selected_square.0 + 1 < old(self).width {
                    ((old(self).selected_square.0 + 1) as usize, old(self).selected_square.1)
                } else {
                    old(self).selected_square
                }
            ),
            !old(self).is_over() && cmd == Command::Left ==> final(self).selected_square == (
                if old(self).selected_square.0 > 0 {
                    ((old(self).selected_square.0 - 1) as usize, old(self).selected_square.1)
                } else {
                    old(self).selected_square
                }
            ),
            !old(self).is_over() && cmd == Command::Down ==> final(self).selected_square == (
                if old(self).selected_square.1 + 1 < old(self).height {
                    (old(self).selected_square.0, (old(self).selected_square.1 + 1) as usize)
                } else {
                    old(self).selected_square
                }
            ),
            !old(self).is_over() && cmd == Command::Up ==> final(self).selected_square == (
                if old(self).selected_square.1 > 0 {
                    (old(self).selected_square.0, (old(self).selected_square.1 - 1) as usize)
                } else {
                    old(self).selected_square
                }
            ),
            !old(self).is_over() && (cmd == Command::Uncover || cmd == Command::Flag)
                ==> final(self).selected_square == old(self).selected_square
                && final(self).highlight_square == old(self).highlight_square,
            !old(self).is_over() && cmd == Command::Uncover ==> old(self).uncover_outcome(
                *final(self),
                old(self).selected_square.0 as int,
                old(self).selected_square.1 as int,
            ),
            !old(self).is_over() && cmd == Command::Flag ==> old(self).flag_outcome(
                *final(self),
                old(self).selected_square.0 as int,
                old(self).selected_square.1 as int,
            ),
    {
        if cmd == Command::Quit {
            return false;
        }
        if !self.alive || self.won {
            return true;
        }
        let (x, y) = self.selected_square;
        match cmd {
            Command::Right => self.move_cursor(1, 0),
            Command::Left => self.move_cursor(-1, 0),
            Command::Down => self.move_cursor(0, 1),
            Command::Up => self.move_cursor(0, -1),
            Command::Uncover => self.uncover(x, y),
            Command::Flag => self.toggle_flag(x, y),
            Command::Highlight => self.set_highlight(),
            _ => {},
        }
        true
    }
}

/// Once every cell that is not a mine is uncovered, and no mine is, a started game is won and
/// not lost.
pub proof fn lemma_all_safe_uncovered_wins(b: Board)
    requires
        b.wf(),
        b.started,
        forall|i: int|
            0 <= i < b.board@.len() ==> ((#[trigger] b.board@[i]).state == MineState::Uncovered
                <==> !b.board@[i].is_mine),
    ensures
        b.alive,
        b.won,
        b.status_spec() == GameStatus::Won,
{
    if !b.alive {
        let w = choose|i: int|
            0 <= i < b.board@.len() && (#[trigger] b.board@[i]).state == MineState::Uncovered
                && b.board@[i].is_mine;
    }
    crate::counting::lemma_count_all(b.board@, is_credited_cell());
}

} // verus!
