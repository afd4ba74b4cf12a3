use vstd::prelude::*;

use crate::cell_state::{other, slot, CellState};
use crate::grid::{group_of, liberty_count, neighbours, Grid};
use crate::point::Point;

verus! {

/// The abstract state of a board: what the rules of the game read and change.
pub struct BoardView {
    pub grid: Grid,
    /// The colour whose move is next.
    pub turn: CellState,
    /// Captured-stone counters, one slot per colour (see `slot`).
    pub captured: Seq<i32>,
    /// The point where an immediate recapture is forbidden.
    pub ko: Option<Point>,
    pub allow_suicide: bool,
}

impl BoardView {
    pub open spec fn wf(self) -> bool {
        &&& self.grid.wf()
        &&& self.turn != CellState::Empty
        &&& self.captured.len() == 3
        &&& forall|i: int| 0 <= i < 3 ==> #[trigger] self.captured[i] >= 0
        &&& (self.ko matches Some(k) ==> self.grid.on(k) && self.grid.at(k) == CellState::Empty)
    }

    pub open spec fn captured_of(self, c: CellState) -> i32 {
        self.captured[slot(c)]
    }
}

/// A neighbour `q` that spares a stone of `mover` from suicide: an empty point, an
/// opponent group in atari, or an own group with a liberty other than the point played.
pub open spec fn escapes(g: Grid, mover: CellState, q: Point) -> bool {
    ||| g.at(q) == CellState::Empty
    ||| g.at(q) == other(mover) && liberty_count(g, q) == 1
    ||| g.at(q) == mover && liberty_count(g, q) != 1
}

/// A stone of the side to move at `p` would have no liberty and capture nothing.
pub open spec fn is_suicidal(v: BoardView, p: Point) -> bool {
    let ns = neighbours(v.grid.size, p);
    forall|i: int| 0 <= i < ns.len() ==> !escapes(v.grid, v.turn, #[trigger] ns[i])
}

/// The side to move may put a stone at `p`.
pub open spec fn legal(v: BoardView, p: Point) -> bool {
    &&& v.grid.on(p)
    &&& v.ko != Some(p)
    &&& v.grid.at(p) == CellState::Empty
    &&& (v.allow_suicide || !is_suicidal(v, p))
}

/// Opponent stones left without liberty next to a stone of `mover` just put at `p`.
pub open spec fn opponent_captures(g: Grid, p: Point, mover: CellState) -> Set<Point> {
    let ns = neighbours(g.size, p);
    Set::new(
        |s: Point|
            exists|i: int|
                0 <= i < ns.len() && g.at(#[trigger] ns[i]) == other(mover) && liberty_count(g, ns[i])
                    == 0 && group_of(g, other(mover), ns[i]).contains(s),
    )
}

/// What a stone of `mover` just put at `p` removes: the opponent groups it leaves
/// without liberty, or else its own group when that has none.
pub open spec fn captures(g: Grid, p: Point, mover: CellState) -> Set<Point> {
    let opp = opponent_captures(g, p, mover);
    if opp != Set::<Point>::empty() {
        opp
    } else if liberty_count(g, p) == 0 {
        group_of(g, mover, p)
    } else {
        Set::empty()
    }
}

/// The colour of the stones that `captures` removes.
pub open spec fn removed_colour(g: Grid, p: Point, mover: CellState) -> CellState {
    if opponent_captures(g, p, mover) != Set::<Point>::empty() {
        other(mover)
    } else {
        mover
    }
}

/// A counter raised by `k`, held at `i32::MAX`.
pub open spec fn sat_add(a: int, k: int) -> int {
    if a + k > i32::MAX {
        i32::MAX as int
    } else {
        a + k
    }
}

/// `w` is the state after the side to move in `v` puts a stone at `p`: captured
/// stones are removed and credited to the opponent of their colour, ko is set on a
/// single captured stone when the new stone is left in atari, and the turn passes.
pub open spec fn placed(v: BoardView, p: Point, w: BoardView) -> bool {
    let g1 = v.grid.with(p, v.turn);
    let caps = captures(g1, p, v.turn);
    let credit = slot(other(removed_colour(g1, p, v.turn)));
    &&& w.grid.size == v.grid.size
    &&& w.grid.cells.len() == v.grid.cells.len()
    &&& forall|q: Point|
        v.grid.on(q) ==> #[trigger] w.grid.at(q) == (if caps.contains(q) {
            CellState::Empty
        } else {
            g1.at(q)
        })
    &&& w.turn == other(v.turn)
    &&& w.allow_suicide == v.allow_suicide
    &&& w.captured == v.captured.update(credit, sat_add(v.captured[credit] as int, caps.len() as int) as i32)
    &&& w.ko == (if caps.len() == 1 && liberty_count(w.grid, p) == 1 {
        Some(caps.choose())
    } else {
        None
    })
}

/// The state of a board just read from the diagram rows `rows`.
pub open spec fn loaded(v: BoardView, rows: Seq<Seq<CellState>>, turn: CellState) -> bool {
    &&& v.grid.size == rows.len()
    &&& forall|q: Point| v.grid.on(q) ==> #[trigger] v.grid.at(q) == rows[q.y as int][q.x as int]
    &&& v.turn == turn
    &&& v.captured == seq![0i32, 0i32, 0i32]
    &&& v.ko == None::<Point>
    &&& !v.allow_suicide
}

/// The state of a fresh board of side `size`, or of one after `reset`.
pub open spec fn is_fresh(v: BoardView, size: nat) -> bool {
    &&& v.grid.size == size
    &&& v.grid.cells.len() == size * size
    &&& forall|i: int| 0 <= i < v.grid.cells.len() ==> #[trigger] v.grid.cells[i] == CellState::Empty
    &&& v.turn == CellState::Black
    &&& v.captured == seq![0i32, 0i32, 0i32]
    &&& v.ko == None::<Point>
}

} // verus!
