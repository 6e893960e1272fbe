use vstd::prelude::*;
use crate::board::{Board, MineState, adjacent, lemma_coords};

verus! {

// The invariant of the flood fill in `Board::uncover`, split in parts that are revealed one at
// a time, and the lemmas that carry it through one uncover of a frontier cell.
impl Board {
    pub(crate) proof fn lemma_frontier_item(
        start: Board,
        now: Board,
        t: int,
        frontier: Seq<(usize, usize)>,
        parents: Seq<int>,
        reasons: Seq<int>,
        k: int,
    )
        requires
            Board::cascade_inv(start, now, t, frontier, parents, reasons),
            0 <= k < frontier.len(),
        ensures
            start.in_bounds(frontier[k].0 as int, frontier[k].1 as int),
            0 <= parents[k] < start.board@.len(),
            start.cascades_from(now, parents[k]),
            start.touches(parents[k], start.index(frontier[k].0 as int, frontier[k].1 as int)),
    {
        reveal(Board::inv_frontier);
        assert(start.in_bounds(frontier[k].0 as int, frontier[k].1 as int));
    }

    pub(crate) proof fn lemma_cascade_start(
        start: Board,
        mid: Board,
        t: int,
        frontier: Seq<(usize, usize)>,
        parents: Seq<int>,
        reasons: Seq<int>,
    )
        requires
            start.width > 0,
            start.board@.len() == start.cell_count(),
            mid.width == start.width,
            mid.height == start.height,
            mid.board@.len() == start.board@.len(),
            0 <= t < start.board@.len(),
            start.board@[t].state != MineState::Uncovered,
            mid.board@[t].state == MineState::Uncovered,
            mid.mines_around(start.col(t), start.row(t)) == 0,
            forall|i: int| 0 <= i < start.board@.len() && i != t ==> (#[trigger] mid.board@[i]).state == start.board@[i].state,
            parents == Seq::new(frontier.len(), |k: int| t),
            forall|j: int| 0 <= j < frontier.len() ==> mid.in_bounds((#[trigger] frontier[j]).0 as int, frontier[j].1 as int)
                && adjacent(start.col(t), start.row(t), frontier[j].0 as int, frontier[j].1 as int),
            forall|nx: int, ny: int|
                mid.in_bounds(nx, ny) && adjacent(start.col(t), start.row(t), nx, ny) ==> frontier.contains((nx as usize, ny as usize)),
        ensures
            Board::cascade_inv(start, mid, t, frontier, parents, reasons),
    {
        reveal(Board::inv_frontier);
        reveal(Board::inv_allowed);
        reveal(Board::inv_reasons);
        reveal(Board::inv_closed);
        assert forall|k: int| 0 <= k < frontier.len() implies start.touches(t, start.index((#[trigger] frontier[k]).0 as int, frontier[k].1 as int)) by {
            start.lemma_mine_at_index(frontier[k].0 as int, frontier[k].1 as int);
        }
        assert forall|i: int, j: int|
            0 <= i < start.board@.len() && 0 <= j < start.board@.len() && start.cascades_from(mid, i)
                && #[trigger] start.touches(i, j) implies #[trigger] mid.board@[j].state == MineState::Uncovered
                || (start.board@[j].state == MineState::Flagged && mid.board@[j].state == MineState::Covered)
                || frontier.contains((start.col(j) as usize, start.row(j) as usize)) by {
            lemma_coords(start.width as int, start.height as int, j);
            if i != t {
                assert(mid.board@[i].state == start.board@[i].state);
            } else {
                assert(mid.in_bounds(start.col(j), start.row(j)));
                assert(frontier.contains((start.col(j) as usize, start.row(j) as usize)));
            }
        }
    }

    pub(crate) proof fn lemma_cascade_end(
        start: Board,
        now: Board,
        t: int,
        reasons: Seq<int>,
        order: Seq<int>,
        tick: int,
    )
        requires
            Board::cascade_inv(start, now, t, Seq::empty(), Seq::empty(), reasons),
            Board::inv_order(start, now, t, reasons, order, tick),
        ensures
            forall|j: int| 0 <= j < start.board@.len() ==> #[trigger] start.allowed_change(now, j),
            start.cascade_closed(now),
            exists|reasons: Seq<int>, order: Seq<int>| #[trigger] start.cascade_traced(now, t, reasons, order),
    {
        reveal(Board::inv_allowed);
        reveal(Board::inv_reasons);
        reveal(Board::inv_closed);
        reveal(Board::inv_order);
        assert(start.cascade_traced(now, t, reasons, order));
    }

    /// Cells are stamped in the order their state changed, each after the cell that caused it.
    #[verifier::opaque]
    pub open spec fn inv_order(start: Board, now: Board, t: int, reasons: Seq<int>, order: Seq<int>, tick: int) -> bool {
        &&& order.len() == start.board@.len()
        &&& forall|j: int|
            0 <= j < start.board@.len() && (j == t || (#[trigger] now.board@[j]).state != start.board@[j].state)
                ==> order[j] < tick
        &&& forall|j: int|
            0 <= j < start.board@.len() && j != t && (#[trigger] now.board@[j]).state != start.board@[j].state
                ==> order[reasons[j]] < order[j]
    }

    pub(crate) proof fn lemma_order_start(
        start: Board,
        mid: Board,
        t: int,
        reasons: Seq<int>,
        order: Seq<int>,
        tick: int,
    )
        requires
            0 <= t < start.board@.len(),
            mid.board@.len() == start.board@.len(),
            forall|i: int| 0 <= i < start.board@.len() && i != t ==> (#[trigger] mid.board@[i]).state == start.board@[i].state,
            order == Seq::new(start.board@.len(), |j: int| 0int),
            tick == 1,
        ensures
            Board::inv_order(start, mid, t, reasons, order, tick),
    {
        reveal(Board::inv_order);
    }

    pub(crate) proof fn lemma_step_order(
        start: Board,
        prev: Board,
        now: Board,
        t: int,
        fprev: Seq<(usize, usize)>,
        pprev: Seq<int>,
        rprev: Seq<int>,
        frontier: Seq<(usize, usize)>,
        parents: Seq<int>,
        reasons: Seq<int>,
        ip: int,
        par: int,
        cascade: bool,
        added: Seq<(usize, usize)>,
        oprev: Seq<int>,
        order: Seq<int>,
        tick: int,
    )
        requires
            Board::cascade_step(start, prev, now, fprev, pprev, rprev, frontier, parents, reasons, ip, par, cascade, added),
            Board::inv_reasons(start, prev, t, rprev),
            Board::inv_order(start, prev, t, rprev, oprev, tick),
            order == if now.board@[ip].state != prev.board@[ip].state { oprev.update(ip, tick) } else { oprev },
        ensures
            Board::inv_order(start, now, t, reasons, order, tick + 1),
    {
        reveal(Board::inv_reasons);
        reveal(Board::inv_order);
        start.lemma_mine_at_index(fprev.last().0 as int, fprev.last().1 as int);
        assert forall|j: int|
            0 <= j < start.board@.len() && j != t && (#[trigger] now.board@[j]).state != start.board@[j].state
                implies order[reasons[j]] < order[j] by {
            if j == ip && now.board@[ip].state != prev.board@[ip].state {
                assert(par != ip);
            } else {
                assert(prev.board@[j].state != start.board@[j].state);
            }
        }
    }

    /// Each cell waiting in the frontier touches a cell that the cascade reached with no mine around.
    #[verifier::opaque]
    pub open spec fn inv_frontier(start: Board, now: Board, frontier: Seq<(usize, usize)>, parents: Seq<int>) -> bool {
        forall|k: int|
            0 <= k < frontier.len() ==> start.in_bounds((#[trigger] frontier[k]).0 as int, frontier[k].1 as int)
                && 0 <= parents[k] < start.board@.len() && start.cascades_from(now, parents[k])
                && start.touches(parents[k], start.index(frontier[k].0 as int, frontier[k].1 as int))
    }

    #[verifier::opaque]
    pub open spec fn inv_allowed(start: Board, now: Board) -> bool {
        forall|j: int| 0 <= j < start.board@.len() ==> #[trigger] start.allowed_change(now, j)
    }

    #[verifier::opaque]
    pub open spec fn inv_reasons(start: Board, now: Board, t: int, reasons: Seq<int>) -> bool {
        forall|j: int|
            0 <= j < start.board@.len() && j != t && (#[trigger] now.board@[j]).state != start.board@[j].state ==>
                0 <= reasons[j] < start.board@.len() && start.cascades_from(now, reasons[j]) && start.touches(reasons[j], j)
    }

    #[verifier::opaque]
    pub open spec fn inv_closed(start: Board, now: Board, frontier: Seq<(usize, usize)>) -> bool {
        forall|i: int, j: int|
            0 <= i < start.board@.len() && 0 <= j < start.board@.len() && start.cascades_from(now, i)
                && #[trigger] start.touches(i, j) ==> #[trigger] now.board@[j].state == MineState::Uncovered
                || (start.board@[j].state == MineState::Flagged && now.board@[j].state == MineState::Covered)
                || frontier.contains((start.col(j) as usize, start.row(j) as usize))
    }

    /// The invariant of the cascade's loop.
    pub open spec fn cascade_inv(start: Board, now: Board, t: int, frontier: Seq<(usize, usize)>, parents: Seq<int>, reasons: Seq<int>) -> bool {
        &&& Board::inv_frontier(start, now, frontier, parents)
        &&& Board::inv_allowed(start, now)
        &&& Board::inv_reasons(start, now, t, reasons)
        &&& Board::inv_closed(start, now, frontier)
    }

    /// How one uncover of the last cell of the frontier relates the boards and sequences.
    pub open spec fn cascade_step(
        start: Board,
        prev: Board,
        now: Board,
        fprev: Seq<(usize, usize)>,
        pprev: Seq<int>,
        rprev: Seq<int>,
        frontier: Seq<(usize, usize)>,
        parents: Seq<int>,
        reasons: Seq<int>,
        ip: int,
        par: int,
        cascade: bool,
        added: Seq<(usize, usize)>,
    ) -> bool {
        &&& start.width > 0
        &&& start.board@.len() == start.cell_count()
        &&& prev.width == start.width
        &&& prev.height == start.height
        &&& now.width == start.width
        &&& now.height == start.height
        &&& prev.board@.len() == start.board@.len()
        &&& now.board@.len() == start.board@.len()
        &&& fprev.len() > 0
        &&& fprev.len() == pprev.len()
        &&& rprev.len() == start.board@.len()
        &&& ip == start.index(fprev.last().0 as int, fprev.last().1 as int)
        &&& start.in_bounds(fprev.last().0 as int, fprev.last().1 as int)
        &&& par == pprev.last()
        &&& 0 <= par < start.board@.len()
        &&& start.cascades_from(prev, par)
        &&& start.touches(par, ip)
        &&& (forall|x: int, y: int| #[trigger] now.mines_around(x, y) == prev.mines_around(x, y))
        &&& (forall|i: int|
            0 <= i < start.board@.len() && i != ip ==> (#[trigger] now.board@[i]).state
                == prev.board@[i].state)
        &&& (now.board@[ip].state == MineState::Uncovered || (prev.board@[ip].state == MineState::Flagged
                && now.board@[ip].state == MineState::Covered))
        &&& (prev.board@[ip].state == MineState::Flagged ==> now.board@[ip].state == MineState::Covered)
        &&& (cascade ==> prev.board@[ip].state == MineState::Covered && now.board@[ip].state
                == MineState::Uncovered && now.mines_around(fprev.last().0 as int, fprev.last().1 as int) == 0)
        &&& (now.board@[ip].state == MineState::Uncovered && prev.board@[ip].state != MineState::Uncovered
                && now.mines_around(fprev.last().0 as int, fprev.last().1 as int) == 0 ==> cascade)
        &&& (!cascade ==> added.len() == 0)
        &&& (forall|j: int| 0 <= j < added.len() ==> now.in_bounds((#[trigger] added[j]).0 as int, added[j].1 as int)
                && adjacent(fprev.last().0 as int, fprev.last().1 as int, added[j].0 as int, added[j].1 as int))
        &&& (forall|nx: int, ny: int|
                now.in_bounds(nx, ny) && adjacent(fprev.last().0 as int, fprev.last().1 as int, nx, ny) && cascade
                    ==> added.contains((nx as usize, ny as usize)))
        &&& frontier == fprev.drop_last() + added
        &&& parents == pprev.drop_last() + Seq::new(added.len(), |k: int| ip)
        &&& reasons == if now.board@[ip].state != prev.board@[ip].state { rprev.update(ip, par) } else { rprev }
    }

    pub(crate) proof fn lemma_step_stable(
        start: Board,
        prev: Board,
        now: Board,
        fprev: Seq<(usize, usize)>,
        pprev: Seq<int>,
        rprev: Seq<int>,
        frontier: Seq<(usize, usize)>,
        parents: Seq<int>,
        reasons: Seq<int>,
        ip: int,
        par: int,
        cascade: bool,
        added: Seq<(usize, usize)>,
    )
        requires
            Board::cascade_step(start, prev, now, fprev, pprev, rprev, frontier, parents, reasons, ip, par, cascade, added),
            Board::inv_allowed(start, prev),
        ensures
            forall|i: int| 0 <= i < start.board@.len() && start.cascades_from(prev, i) ==> #[trigger] start.cascades_from(now, i),
            cascade ==> start.cascades_from(now, ip),
    {
        reveal(Board::inv_allowed);
        start.lemma_mine_at_index(fprev.last().0 as int, fprev.last().1 as int);
        assert(start.allowed_change(prev, ip));
        start.lemma_mine_at_index(fprev.last().0 as int, fprev.last().1 as int);
    }

    pub(crate) proof fn lemma_step_frontier(
        start: Board,
        prev: Board,
        now: Board,
        fprev: Seq<(usize, usize)>,
        pprev: Seq<int>,
        rprev: Seq<int>,
        frontier: Seq<(usize, usize)>,
        parents: Seq<int>,
        reasons: Seq<int>,
        ip: int,
        par: int,
        cascade: bool,
        added: Seq<(usize, usize)>,
    )
        requires
            Board::cascade_step(start, prev, now, fprev, pprev, rprev, frontier, parents, reasons, ip, par, cascade, added),
            Board::inv_frontier(start, prev, fprev, pprev),
            Board::inv_allowed(start, prev),
        ensures
            Board::inv_frontier(start, now, frontier, parents),
    {
        reveal(Board::inv_frontier);
        Board::lemma_step_stable(start, prev, now, fprev, pprev, rprev, frontier, parents, reasons, ip, par, cascade, added);
        let p = fprev.last();
        let rest = fprev.drop_last();
        start.lemma_mine_at_index(p.0 as int, p.1 as int);
        assert forall|k: int|
            0 <= k < frontier.len() implies start.in_bounds((#[trigger] frontier[k]).0 as int, frontier[k].1 as int)
                && 0 <= parents[k] < start.board@.len() && start.cascades_from(now, parents[k])
                && start.touches(parents[k], start.index(frontier[k].0 as int, frontier[k].1 as int)) by {
            if k < rest.len() {
                assert(frontier[k] == fprev[k]);
                assert(parents[k] == pprev[k]);
            } else {
                let q = added[k - rest.len()];
                assert(frontier[k] == q);
                start.lemma_mine_at_index(q.0 as int, q.1 as int);
            }
        }
    }

    pub(crate) proof fn lemma_step_allowed(
        start: Board,
        prev: Board,
        now: Board,
        fprev: Seq<(usize, usize)>,
        pprev: Seq<int>,
        rprev: Seq<int>,
        frontier: Seq<(usize, usize)>,
        parents: Seq<int>,
        reasons: Seq<int>,
        ip: int,
        par: int,
        cascade: bool,
        added: Seq<(usize, usize)>,
    )
        requires
            Board::cascade_step(start, prev, now, fprev, pprev, rprev, frontier, parents, reasons, ip, par, cascade, added),
            Board::inv_allowed(start, prev),
        ensures
            Board::inv_allowed(start, now),
    {
        reveal(Board::inv_allowed);
        start.lemma_mine_at_index(fprev.last().0 as int, fprev.last().1 as int);
        assert forall|j: int| 0 <= j < start.board@.len() implies #[trigger] start.allowed_change(now, j) by {
            assert(start.allowed_change(prev, j));
        }
    }

    pub(crate) proof fn lemma_step_reasons(
        start: Board,
        prev: Board,
        now: Board,
        t: int,
        fprev: Seq<(usize, usize)>,
        pprev: Seq<int>,
        rprev: Seq<int>,
        frontier: Seq<(usize, usize)>,
        parents: Seq<int>,
        reasons: Seq<int>,
        ip: int,
        par: int,
        cascade: bool,
        added: Seq<(usize, usize)>,
    )
        requires
            Board::cascade_step(start, prev, now, fprev, pprev, rprev, frontier, parents, reasons, ip, par, cascade, added),
            Board::inv_reasons(start, prev, t, rprev),
            Board::inv_allowed(start, prev),
        ensures
            Board::inv_reasons(start, now, t, reasons),
    {
        reveal(Board::inv_reasons);
        Board::lemma_step_stable(start, prev, now, fprev, pprev, rprev, frontier, parents, reasons, ip, par, cascade, added);
        start.lemma_mine_at_index(fprev.last().0 as int, fprev.last().1 as int);
        assert forall|j: int|
            0 <= j < start.board@.len() && j != t && (#[trigger] now.board@[j]).state != start.board@[j].state implies
                0 <= reasons[j] < start.board@.len() && start.cascades_from(now, reasons[j]) && start.touches(reasons[j], j) by {
            if j != ip || now.board@[ip].state == prev.board@[ip].state {
                assert(prev.board@[j].state != start.board@[j].state);
            }
        }
    }

    #[verifier::rlimit(40)]
    pub(crate) proof fn lemma_step_closed(
        start: Board,
        prev: Board,
        now: Board,
        fprev: Seq<(usize, usize)>,
        pprev: Seq<int>,
        rprev: Seq<int>,
        frontier: Seq<(usize, usize)>,
        parents: Seq<int>,
        reasons: Seq<int>,
        ip: int,
        par: int,
        cascade: bool,
        added: Seq<(usize, usize)>,
    )
        requires
            Board::cascade_step(start, prev, now, fprev, pprev, rprev, frontier, parents, reasons, ip, par, cascade, added),
            Board::inv_closed(start, prev, fprev),
            Board::inv_allowed(start, prev),
        ensures
            Board::inv_closed(start, now, frontier),
    {
        reveal(Board::inv_closed);
        reveal(Board::inv_allowed);
        Board::lemma_step_stable(start, prev, now, fprev, pprev, rprev, frontier, parents, reasons, ip, par, cascade, added);
        let p = fprev.last();
        let rest = fprev.drop_last();
        start.lemma_mine_at_index(p.0 as int, p.1 as int);
        assert forall|i: int, j: int|
            0 <= i < start.board@.len() && 0 <= j < start.board@.len() && start.cascades_from(now, i)
                && #[trigger] start.touches(i, j) implies #[trigger] now.board@[j].state == MineState::Uncovered
                || (start.board@[j].state == MineState::Flagged && now.board@[j].state == MineState::Covered)
                || frontier.contains((start.col(j) as usize, start.row(j) as usize)) by {
            lemma_coords(start.width as int, start.height as int, j);
            let f = (start.col(j) as usize, start.row(j) as usize);
            if i == ip && !start.cascades_from(prev, i) {
                assert(now.in_bounds(f.0 as int, f.1 as int));
                assert(adjacent(p.0 as int, p.1 as int, f.0 as int, f.1 as int));
                assert(added.contains(f));
                let k = choose|k: int| 0 <= k < added.len() && added[k] == f;
                assert(frontier[rest.len() + k] == f);
            } else {
                assert(start.cascades_from(prev, i));
                if fprev.contains(f) {
                    let k = choose|k: int| 0 <= k < fprev.len() && fprev[k] == f;
                    if k < rest.len() {
                        assert(frontier[k] == f);
                    } else {
                        assert(f == p);
                        assert(j == ip);
                        assert(start.allowed_change(prev, j));
                    }
                } else {
                    assert(start.allowed_change(prev, j));
                }
            }
        }
    }
    /// The frontier holds position `c` with parent `i`.
    pub open spec fn frontier_has(frontier: Seq<(usize, usize)>, parents: Seq<int>, c: (usize, usize), i: int) -> bool {
        exists|k: int| 0 <= k < frontier.len() && frontier[k] == c && #[trigger] parents[k] == i
    }

    pub open spec fn coord(self, j: int) -> (usize, usize) {
        (self.col(j) as usize, self.row(j) as usize)
    }

    /// What becomes of flagged cells: `first` names the cell whose cascade took the flag off.
    #[verifier::opaque]
    pub open spec fn inv_flags(start: Board, now: Board, frontier: Seq<(usize, usize)>, parents: Seq<int>, reasons: Seq<int>, first: Seq<int>) -> bool {
        &&& first.len() == start.board@.len()
        &&& forall|a: int, b: int|
            0 <= a < b < frontier.len() ==> frontier[a] != frontier[b] || #[trigger] parents[a] != #[trigger] parents[b]
        &&& forall|j: int|
            0 <= j < start.board@.len() && start.board@[j].state == MineState::Flagged
                && (#[trigger] now.board@[j]).state == MineState::Covered ==> 0 <= first[j] < start.board@.len()
                && start.cascades_from(now, first[j]) && start.touches(first[j], j)
                && !Board::frontier_has(frontier, parents, start.coord(j), first[j])
        &&& forall|j: int|
            0 <= j < start.board@.len() && start.board@[j].state == MineState::Flagged
                && (#[trigger] now.board@[j]).state == MineState::Uncovered ==> 0 <= first[j] < start.board@.len()
                && start.cascades_from(now, first[j]) && start.touches(first[j], j) && first[j] != reasons[j]
        &&& forall|i: int, j: int|
            0 <= i < start.board@.len() && 0 <= j < start.board@.len() && start.board@[j].state == MineState::Flagged
                && start.cascades_from(now, i) && #[trigger] start.touches(i, j) ==> #[trigger] now.board@[j].state
                == MineState::Uncovered || Board::frontier_has(frontier, parents, start.coord(j), i) || (
                now.board@[j].state == MineState::Covered && first[j] == i)
    }

    pub(crate) proof fn lemma_flags_start(
        start: Board,
        mid: Board,
        t: int,
        frontier: Seq<(usize, usize)>,
        parents: Seq<int>,
        reasons: Seq<int>,
        first: Seq<int>,
    )
        requires
            start.width > 0,
            start.board@.len() == start.cell_count(),
            mid.width == start.width,
            mid.height == start.height,
            mid.board@.len() == start.board@.len(),
            0 <= t < start.board@.len(),
            start.board@[t].state == MineState::Covered,
            mid.board@[t].state == MineState::Uncovered,
            first.len() == start.board@.len(),
            forall|i: int| 0 <= i < start.board@.len() && i != t ==> (#[trigger] mid.board@[i]).state == start.board@[i].state,
            parents == Seq::new(frontier.len(), |k: int| t),
            frontier.no_duplicates(),
            forall|nx: int, ny: int|
                mid.in_bounds(nx, ny) && adjacent(start.col(t), start.row(t), nx, ny) ==> frontier.contains((nx as usize, ny as usize)),
        ensures
            Board::inv_flags(start, mid, frontier, parents, reasons, first),
    {
        reveal(Board::inv_flags);
        assert forall|i: int, j: int|
            0 <= i < start.board@.len() && 0 <= j < start.board@.len() && start.board@[j].state == MineState::Flagged
                && start.cascades_from(mid, i) && #[trigger] start.touches(i, j) implies #[trigger] mid.board@[j].state
                == MineState::Uncovered || Board::frontier_has(frontier, parents, start.coord(j), i) || (
                mid.board@[j].state == MineState::Covered && first[j] == i) by {
            lemma_coords(start.width as int, start.height as int, j);
            if i != t {
                assert(mid.board@[i].state == start.board@[i].state);
            } else {
                assert(mid.in_bounds(start.col(j), start.row(j)));
                assert(frontier.contains(start.coord(j)));
                let k = choose|k: int| 0 <= k < frontier.len() && frontier[k] == start.coord(j);
                assert(parents[k] == t);
            }
        }
    }

    #[verifier::rlimit(60)]
    pub(crate) proof fn lemma_step_flags(
        start: Board,
        prev: Board,
        now: Board,
        fprev: Seq<(usize, usize)>,
        pprev: Seq<int>,
        rprev: Seq<int>,
        frontier: Seq<(usize, usize)>,
        parents: Seq<int>,
        reasons: Seq<int>,
        ip: int,
        par: int,
        cascade: bool,
        added: Seq<(usize, usize)>,
        fsprev: Seq<int>,
        first: Seq<int>,
    )
        requires
            Board::cascade_step(start, prev, now, fprev, pprev, rprev, frontier, parents, reasons, ip, par, cascade, added),
            Board::inv_frontier(start, prev, fprev, pprev),
            Board::inv_allowed(start, prev),
            Board::inv_flags(start, prev, fprev, pprev, rprev, fsprev),
            added.no_duplicates(),
            first == if prev.board@[ip].state == MineState::Flagged && now.board@[ip].state
                == MineState::Covered {
                fsprev.update(ip, par)
            } else {
                fsprev
            },
        ensures
            Board::inv_flags(start, now, frontier, parents, reasons, first),
    {
        reveal(Board::inv_flags);
        reveal(Board::inv_frontier);
        reveal(Board::inv_allowed);
        Board::lemma_step_stable(start, prev, now, fprev, pprev, rprev, frontier, parents, reasons, ip, par, cascade, added);
        let p = fprev.last();
        let rest = fprev.drop_last();
        let last = fprev.len() - 1;
        start.lemma_mine_at_index(p.0 as int, p.1 as int);
        assert(fprev[last] == p && pprev[last] == par);
        assert(start.coord(ip) == p);
        assert(!start.cascades_from(prev, ip) || !cascade);
        // parents in the rest are cascades of prev; ip is not one when it cascades now
        assert forall|k: int| 0 <= k < rest.len() implies #[trigger] parents[k] == pprev[k] && frontier[k] == fprev[k]
            && start.cascades_from(prev, pprev[k]) by {
            assert(fprev[k] == rest[k]);
        }
        assert forall|k: int| rest.len() <= k < frontier.len() implies #[trigger] parents[k] == ip && frontier[k] == added[k - rest.len()] by {}
        assert forall|a: int, b: int|
            0 <= a < b < frontier.len() implies frontier[a] != frontier[b] || #[trigger] parents[a] != #[trigger] parents[b] by {
            if b < rest.len() {
                assert(fprev[a] != fprev[b] || pprev[a] != pprev[b]);
            } else if a < rest.len() {
                assert(start.cascades_from(prev, pprev[a]));
            } else {
                assert(added[a - rest.len()] != added[b - rest.len()]);
            }
        }
        assert forall|j: int|
            0 <= j < start.board@.len() && start.board@[j].state == MineState::Flagged
                && (#[trigger] now.board@[j]).state == MineState::Covered implies 0 <= first[j] < start.board@.len()
                && start.cascades_from(now, first[j]) && start.touches(first[j], j)
                && !Board::frontier_has(frontier, parents, start.coord(j), first[j]) by {
            if j == ip && prev.board@[ip].state == MineState::Flagged {
                assert(first[j] == par);
                if Board::frontier_has(frontier, parents, start.coord(j), first[j]) {
                    let k = choose|k: int| 0 <= k < frontier.len() && frontier[k] == start.coord(j) && #[trigger] parents[k] == first[j];
                    assert(fprev[k] != fprev[last] || pprev[k] != pprev[last]);
                }
            } else {
                assert(prev.board@[j].state == MineState::Covered);
                assert(first[j] == fsprev[j]);
                if Board::frontier_has(frontier, parents, start.coord(j), first[j]) {
                    let k = choose|k: int| 0 <= k < frontier.len() && frontier[k] == start.coord(j) && #[trigger] parents[k] == first[j];
                    if k < rest.len() {
                        assert(Board::frontier_has(fprev, pprev, start.coord(j), fsprev[j]));
                    }
                }
            }
        }
        assert forall|j: int|
            0 <= j < start.board@.len() && start.board@[j].state == MineState::Flagged
                && (#[trigger] now.board@[j]).state == MineState::Uncovered implies 0 <= first[j] < start.board@.len()
                && start.cascades_from(now, first[j]) && start.touches(first[j], j) && first[j] != reasons[j] by {
            assert(first[j] == fsprev[j]);
            if j == ip && prev.board@[ip].state != MineState::Uncovered {
                assert(start.allowed_change(prev, ip));
                assert(prev.board@[ip].state == MineState::Covered);
                assert(!Board::frontier_has(fprev, pprev, start.coord(ip), fsprev[ip]));
                assert(reasons[ip] == par);
            } else {
                assert(prev.board@[j].state == MineState::Uncovered);
            }
        }
        assert forall|i: int, j: int|
            0 <= i < start.board@.len() && 0 <= j < start.board@.len() && start.board@[j].state == MineState::Flagged
                && start.cascades_from(now, i) && #[trigger] start.touches(i, j) implies #[trigger] now.board@[j].state
                == MineState::Uncovered || Board::frontier_has(frontier, parents, start.coord(j), i) || (
                now.board@[j].state == MineState::Covered && first[j] == i) by {
            lemma_coords(start.width as int, start.height as int, j);
            if i == ip && !start.cascades_from(prev, i) {
                assert(now.in_bounds(start.col(j), start.row(j)));
                assert(added.contains(start.coord(j)));
                let m = choose|m: int| 0 <= m < added.len() && added[m] == start.coord(j);
                assert(frontier[rest.len() + m] == start.coord(j) && parents[rest.len() + m] == ip);
            } else {
                assert(start.cascades_from(prev, i));
                if Board::frontier_has(fprev, pprev, start.coord(j), i) {
                    let k = choose|k: int| 0 <= k < fprev.len() && fprev[k] == start.coord(j) && #[trigger] pprev[k] == i;
                    if k < rest.len() {
                        assert(frontier[k] == start.coord(j) && parents[k] == i);
                    } else {
                        assert(j == ip);
                        assert(start.allowed_change(prev, ip));
                    }
                } else if j == ip {
                    assert(start.allowed_change(prev, ip));
                }
            }
        }
    }
    pub(crate) proof fn lemma_flags_end(start: Board, now: Board, t: int, reasons: Seq<int>, first: Seq<int>)
        requires
            Board::inv_flags(start, now, Seq::empty(), Seq::empty(), reasons, first),
            Board::inv_reasons(start, now, t, reasons),
            0 <= t < start.board@.len(),
            start.board@[t].state == MineState::Covered,
        ensures
            start.flags_settled(now),
    {
        reveal(Board::inv_flags);
        reveal(Board::inv_reasons);
        assert forall|j: int|
            0 <= j < start.board@.len() && start.board@[j].state == MineState::Flagged implies
                ((#[trigger] now.board@[j]).state == MineState::Uncovered <==> start.reached_twice(now, j)) by {
            if now.board@[j].state == MineState::Uncovered {
                assert(start.touches(reasons[j], j));
                assert(start.touches(first[j], j));
            }
            if start.reached_twice(now, j) {
                let (i1, i2) = choose|i1: int, i2: int|
                    0 <= i1 < start.board@.len() && 0 <= i2 < start.board@.len() && i1 != i2
                        && start.cascades_from(now, i1) && start.cascades_from(now, i2)
                        && #[trigger] start.touches(i1, j) && #[trigger] start.touches(i2, j);
                assert(!Board::frontier_has(Seq::empty(), Seq::empty(), start.coord(j), i1));
                assert(!Board::frontier_has(Seq::empty(), Seq::empty(), start.coord(j), i2));
            }
        }
    }
}

} // verus!
