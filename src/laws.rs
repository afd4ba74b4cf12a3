use vstd::prelude::*;

use crate::cell_state::{other, CellState};
use crate::grid::{
    boundary, group_of, index_of, lemma_connected_ends, lemma_group_same, lemma_index_bounds,
    lemma_index_injective, liberty_count, neighbours, territory, Grid,
};
use crate::point::{on_board, Point};
use crate::rules::{captures, legal, opponent_captures, placed, BoardView};

verus! {

/// On a board of side two or more, a corner point has two neighbours, any other
/// point on the edge three, and an inner point four.
pub proof fn lemma_adjacent_count(size: nat, p: Point)
    requires
        2 <= size <= i32::MAX,
        on_board(size as int, p),
    ensures
        ({
            let on_x_edge = p.x == 0 || p.x == size - 1;
            let on_y_edge = p.y == 0 || p.y == size - 1;
            neighbours(size, p).len() == if on_x_edge && on_y_edge {
                2int
            } else if on_x_edge || on_y_edge {
                3int
            } else {
                4int
            }
        }),
{
}

/// Every point that a move removes is on the board and holds a stone.
pub proof fn lemma_captures_are_stones(g: Grid, p: Point, mover: CellState, q: Point)
    requires
        mover != CellState::Empty,
        captures(g, p, mover).contains(q),
    ensures
        g.on(q),
        g.at(q) != CellState::Empty,
{
    let opp = opponent_captures(g, p, mover);
    if opp != Set::<Point>::empty() {
        let ns = neighbours(g.size, p);
        let i = choose|i: int|
            0 <= i < ns.len() && g.at(#[trigger] ns[i]) == other(mover) && liberty_count(g, ns[i]) == 0
                && group_of(g, other(mover), ns[i]).contains(q);
        lemma_connected_ends(g, other(mover), ns[i], q);
    } else {
        lemma_connected_ends(g, mover, p, q);
    }
}

/// After a move that captures exactly the stone at `k` and leaves the new stone in
/// atari, `k` is empty and is the ko point: taking back at once is illegal.
pub proof fn lemma_ko_forbids_recapture(v: BoardView, p: Point, w: BoardView, k: Point)
    requires
        v.wf(),
        legal(v, p),
        placed(v, p, w),
        captures(v.grid.with(p, v.turn), p, v.turn) == set![k],
        liberty_count(w.grid, p) == 1,
    ensures
        w.ko == Some(k),
        w.grid.at(k) == CellState::Empty,
        !legal(w, k),
{
    let caps = set![k];
    assert(caps.len() == 1);
    assert(caps.contains(caps.choose()));
    let g1 = v.grid.with(p, v.turn);
    lemma_captures_are_stones(g1, p, v.turn, k);
}

/// A ko lasts one move: once the side to move has played anywhere, the former ko
/// point is no longer barred by ko.
pub proof fn lemma_ko_lasts_one_move(v: BoardView, p: Point, w: BoardView)
    requires
        v.wf(),
        legal(v, p),
        placed(v, p, w),
    ensures
        v.ko is Some ==> w.ko != v.ko,
{
    if v.ko is Some && w.ko is Some {
        let k = v.ko->Some_0;
        let g1 = v.grid.with(p, v.turn);
        let caps = captures(g1, p, v.turn);
        assert(caps.len() == 1);
        assert(caps != Set::<Point>::empty());
        let c = caps.choose();
        assert(caps.contains(c));
        lemma_captures_are_stones(g1, p, v.turn, c);
        assert(k != p);
        lemma_index_bounds(v.grid, k);
        lemma_index_bounds(v.grid, p);
        if index_of(v.grid.size, k) == index_of(v.grid.size, p) {
            lemma_index_injective(v.grid, k, p);
        }
        assert(g1.at(k) == CellState::Empty);
    }
}

/// Capture counters never decrease: a move only adds to them.
pub proof fn lemma_captures_only_grow(v: BoardView, p: Point, w: BoardView)
    requires
        v.wf(),
        placed(v, p, w),
    ensures
        w.captured.len() == v.captured.len(),
        forall|i: int| 0 <= i < v.captured.len() ==> #[trigger] w.captured[i] >= v.captured[i],
{
}

/// An empty region is the same set, and has the same boundary, from whichever of
/// its points it is asked for.
pub proof fn lemma_region_same_from_any_point(g: Grid, p: Point, q: Point)
    requires
        territory(g, p).contains(q),
    ensures
        territory(g, q) == territory(g, p),
        boundary(g, q) == boundary(g, p),
{
    lemma_group_same(g, CellState::Empty, p, q);
    assert(boundary(g, q) =~= boundary(g, p));
}

} // verus!
