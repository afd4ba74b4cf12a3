use vstd::prelude::*;

use crate::cell_state::{other, slot, CellState};
use crate::grid::{
    closed_at, connected, group_of, index_of, lemma_closed_holds_group, lemma_connected_ends,
    lemma_connected_refl, lemma_connected_step, lemma_index_bounds, lemma_neighbours,
    lemma_points_bound, liberties, liberty_count, neighbours, territory, boundary, Grid,
};
use crate::diagram::{diagram_rows, is_square, parse_rows};
use crate::point::Point;
use crate::rules::{
    captures, escapes, is_fresh, is_suicidal, legal, loaded, opponent_captures, placed, removed_colour,
    sat_add, BoardView,
};

verus! {

/// A Go board: the grid of stones and the state of the game on it.
pub struct Board {
    cells: Vec<CellState>,
    turn: CellState,
    size: usize,
    captured_stones: Vec<i32>,
    ko: Option<Point>,
    allow_suicide: bool,
    /// Legality of a move at each point, once computed for the present state.
    placement_cache: Vec<Option<bool>>,
}

impl View for Board {
    type V = BoardView;

    closed spec fn view(&self) -> BoardView {
        BoardView {
            grid: Grid { size: self.size as nat, cells: self.cells@ },
            turn: self.turn,
            captured: self.captured_stones@,
            ko: self.ko,
            allow_suicide: self.allow_suicide,
        }
    }
}

/// `q` occurs in `v`.
fn holds(v: &Vec<Point>, q: Point) -> (r: bool)
    ensures
        r == v@.contains(q),
{
    let mut i: usize = 0;
    while i < v.len()
        invariant
            0 <= i <= v.len(),
            forall|j: int| 0 <= j < i ==> v@[j] != q,
        decreases v.len() - i,
    {
        if v[i] == q {
            return true;
        }
        i = i + 1;
    }
    false
}

impl Board {
    /// The board's invariant: its view is well formed and every remembered
    /// legality answer is the true one for the present state.
    pub closed spec fn wf(&self) -> bool {
        &&& self@.wf()
        &&& self.placement_cache.len() == self.cells.len()
        &&& forall|p: Point|
            #![trigger self.placement_cache@[index_of(self.size as nat, p)]]
            self@.grid.on(p) ==> match self.placement_cache@[index_of(self.size as nat, p)] {
                Some(b) => b == legal(self@, p),
                None => true,
            }
    }

    pub fn get(&self, p: Point) -> (r: CellState)
        requires
            self.wf(),
            self@.grid.on(p),
        ensures
            r == self@.grid.at(p),
    {
        proof {
            lemma_index_bounds(self@.grid, p);
        }
        self.cells[p.y as usize * self.size + p.x as usize]
    }

    pub fn get_adjacent(&self, p: Point) -> (r: Vec<Point>)
        requires
            self.wf(),
            self@.grid.on(p),
        ensures
            r@ == neighbours(self@.grid.size, p),
    {
        let mut adjacent: Vec<Point> = Vec::new();
        if p.x >= 1 {
            adjacent.push(p.add(Point::new(-1, 0)));
        }
        if (p.x as usize) + 1 < self.size {
            adjacent.push(p.add(Point::new(1, 0)));
        }
        if p.y >= 1 {
            adjacent.push(p.add(Point::new(0, -1)));
        }
        if (p.y as usize) + 1 < self.size {
            adjacent.push(p.add(Point::new(0, 1)));
        }
        assert(adjacent@ =~= neighbours(self@.grid.size, p));
        adjacent
    }

    /// The points of the group of `color` that holds `p`, found by a work-list
    /// search, each once, starting with `p`.
    fn flood(&self, color: CellState, p: Point) -> (r: Vec<Point>)
        requires
            self.wf(),
            self@.grid.on(p),
        ensures
            r@.no_duplicates(),
            r@.to_set() == group_of(self@.grid, color, p),
            forall|i: int|
                0 <= i < r.len() ==> self@.grid.on(#[trigger] r@[i]) && self@.grid.at(r@[i])
                    == color,
            self@.grid.at(p) == color ==> r.len() > 0 && r@[0] == p,
            self@.grid.at(p) != color ==> r.len() == 0,
    {
        let ghost g = self@.grid;
        let mut found: Vec<Point> = Vec::new();
        let mut stack: Vec<Point> = Vec::new();
        if self.get(p) == color {
            found.push(p);
            stack.push(p);
            proof {
                lemma_connected_refl(g, color, p);
                lemma_index_bounds(g, p);
            }
        }
        while stack.len() > 0
            invariant
                self.wf(),
                g == self@.grid,
                g.wf(),
                g.on(p),
                found@.no_duplicates(),
                forall|i: int|
                    0 <= i < found.len() ==> g.on(#[trigger] found@[i]) && g.at(found@[i]) == color
                        && connected(g, color, p, found@[i]),
                forall|i: int| 0 <= i < stack.len() ==> found@.contains(#[trigger] stack@[i]),
                forall|i: int|
                    0 <= i < found.len() ==> stack@.contains(#[trigger] found@[i]) || closed_at(
                        g,
                        color,
                        found@,
                        found@[i],
                    ),
                g.at(p) == color ==> found.len() > 0 && found@[0] == p,
                g.at(p) != color ==> found.len() == 0,
                found.len() <= g.size * g.size,
            decreases g.size * g.size - found.len(), stack.len(),
        {
            assert(found@.contains(stack@[0]));
            let ghost stack_full = stack@;
            let u = stack.pop().unwrap();
            let ghost found0 = found@;
            let ghost stack0 = stack@;
            assert(stack_full == stack0.push(u));
            assert(found0.contains(u));
            assert forall|i: int| 0 <= i < found.len() implies stack@.contains(
                #[trigger] found@[i],
            ) || closed_at(g, color, found@, found@[i]) || found@[i] == u by {
                if stack_full.contains(found@[i]) && found@[i] != u {
                    let j = choose|j: int| 0 <= j < stack_full.len() && stack_full[j] == found@[i];
                    assert(stack@[j] == found@[i]);
                }
            }
            proof {
                lemma_neighbours(g, u);
            }
            let adj = self.get_adjacent(u);
            let mut k: usize = 0;
            while k < adj.len()
                invariant
                    self.wf(),
                    g == self@.grid,
                    g.wf(),
                    g.on(p),
                    g.on(u),
                    g.at(u) == color,
                    connected(g, color, p, u),
                    adj@ == neighbours(g.size, u),
                    0 <= k <= adj.len(),
                    found@.no_duplicates(),
                    found0.len() <= found.len(),
                    found@.subrange(0, found0.len() as int) == found0,
                    found0.contains(u),
                    forall|i: int|
                        0 <= i < found.len() ==> g.on(#[trigger] found@[i]) && g.at(found@[i])
                            == color && connected(g, color, p, found@[i]),
                    forall|i: int| 0 <= i < stack.len() ==> found@.contains(#[trigger] stack@[i]),
                    forall|i: int|
                        0 <= i < found.len() ==> stack@.contains(#[trigger] found@[i]) || closed_at(
                            g,
                            color,
                            found@,
                            found@[i],
                        ) || found@[i] == u,
                    forall|j: int|
                        0 <= j < k && g.at(adj@[j]) == color ==> found@.contains(#[trigger] adj@[j]),
                    stack.len() - stack0.len() == found.len() - found0.len(),
                    g.at(p) == color,
                    found.len() > 0 && found@[0] == p,
                decreases adj.len() - k,
            {
                let q = adj[k];
                assert(g.on(q) && crate::point::adjacent(u, q));
                if self.get(q) == color && !holds(&found, q) {
                    let ghost before = found@;
                    let ghost stack_before = stack@;
                    proof {
                        lemma_connected_step(g, color, p, u, q);
                    }
                    found.push(q);
                    stack.push(q);
                    assert(forall|x: Point| before.contains(x) ==> found@.contains(x)) by {
                        assert forall|x: Point| before.contains(x) implies found@.contains(x) by {
                            let j = choose|j: int| 0 <= j < before.len() && before[j] == x;
                            assert(found@[j] == x);
                        }
                    }
                    assert forall|i: int| 0 <= i < found.len() implies stack@.contains(
                        #[trigger] found@[i],
                    ) || closed_at(g, color, found@, found@[i]) || found@[i] == u by {
                        if i < before.len() {
                            assert(found@[i] == before[i]);
                            if closed_at(g, color, before, before[i]) {
                                assert forall|n: Point|
                                    g.on(n) && crate::point::adjacent(before[i], n) && g.at(n) == color implies #[trigger] found@.contains(n) by {
                                    assert(before.contains(n));
                                }
                            }
                            if stack_before.contains(before[i]) {
                                let j = choose|j: int|
                                    0 <= j < stack_before.len() && stack_before[j] == before[i];
                                assert(stack@[j] == before[i]);
                            }
                        } else {
                            assert(stack@[stack.len() - 1] == q);
                        }
                    }
                    assert forall|i: int| 0 <= i < stack.len() implies found@.contains(
                        #[trigger] stack@[i],
                    ) by {
                        if i < stack_before.len() {
                            assert(stack@[i] == stack_before[i]);
                            assert(before.contains(stack_before[i]));
                        } else {
                            assert(found@[found.len() - 1] == q);
                        }
                    }
                    assert(found@.subrange(0, found0.len() as int) =~= found0);
                    assert(found@[found.len() - 1] == q);
                    assert(found@.contains(q));
                }
                k = k + 1;
            }
            proof {
                assert(closed_at(g, color, found@, u)) by {
                    assert forall|n: Point|
                        g.on(n) && crate::point::adjacent(u, n) && g.at(n) == color implies #[trigger] found@.contains(n) by {
                        let j = choose|j: int| 0 <= j < adj.len() && adj@[j] == n;
                    }
                }
                lemma_points_bound(g, found@);
            }
        }
        proof {
            assert forall|q: Point| found@.to_set().contains(q) <==> group_of(g, color, p).contains(q) by {
                if found@.to_set().contains(q) {
                    let j = choose|j: int| 0 <= j < found.len() && found@[j] == q;
                }
                if group_of(g, color, p).contains(q) {
                    lemma_connected_ends(g, color, p, q);
                    assert forall|i: int| 0 <= i < found.len() implies closed_at(g, color, found@, #[trigger] found@[i]) by {
                        assert(!stack@.contains(found@[i]));
                    }
                    assert(found@[0] == p);
                    lemma_closed_holds_group(g, color, found@, p, q);
                }
            }
            assert(found@.to_set() =~= group_of(g, color, p));
        }
        found
    }

    /// A board whose legality table knows nothing is well formed when its view is.
    proof fn lemma_blank_cache(&self)
        requires
            self@.wf(),
            self.placement_cache.len() == self.cells.len(),
            forall|i: int| 0 <= i < self.placement_cache.len() ==> #[trigger] self.placement_cache@[i] is None,
        ensures
            self.wf(),
    {
        assert forall|p: Point| self@.grid.on(p) implies match self.placement_cache@[index_of(self.size as nat, p)] {
            Some(b) => b == legal(self@, p),
            None => true,
        } by {
            lemma_index_bounds(self@.grid, p);
        }
    }

    /// A stone of the side to move at `p` would have no liberty and capture nothing.
    fn is_move_suicidal(&self, p: Point) -> (r: bool)
        requires
            self.wf(),
            self@.grid.on(p),
        ensures
            r == is_suicidal(self@, p),
    {
        let adjacents = self.get_adjacent(p);
        let other_player = self.turn.get_other_player();
        proof {
            lemma_neighbours(self@.grid, p);
        }
        let mut i: usize = 0;
        while i < adjacents.len()
            invariant
                self.wf(),
                adjacents@ == neighbours(self@.grid.size, p),
                0 <= i <= adjacents.len(),
                other_player == other(self@.turn),
                forall|j: int| 0 <= j < adjacents.len() ==> self@.grid.on(#[trigger] adjacents@[j]),
                forall|j: int| 0 <= j < i ==> !escapes(self@.grid, self@.turn, #[trigger] adjacents@[j]),
            decreases adjacents.len() - i,
        {
            let q = adjacents[i];
            let stone = self.get(q);
            if stone == CellState::Empty {
                return false;
            } else if stone == other_player && self.is_in_atari(q) {
                return false;
            } else if stone == self.turn && !self.is_in_atari(q) {
                return false;
            }
            i = i + 1;
        }
        true
    }

    /// Whether the side to move may put a stone at `p`. The answer is remembered
    /// until the state changes; what the board holds does not change.
    pub fn can_place(&mut self, p: Point) -> (r: bool)
        requires
            old(self).wf(),
        ensures
            final(self).wf(),
            final(self)@ == old(self)@,
            r == legal(old(self)@, p),
    {
        if p.x < 0 || p.y < 0 || p.x as usize >= self.size || p.y as usize >= self.size {
            return false;
        }
        proof {
            lemma_index_bounds(self@.grid, p);
        }
        let cache_idx: usize = p.y as usize * self.size + p.x as usize;
        if let Some(cached) = self.placement_cache[cache_idx] {
            return cached;
        }
        let blocked = match self.ko {
            Some(k) => k == p,
            None => false,
        };
        let can_place = if blocked {
            false
        } else {
            match self.get(p) {
                CellState::Empty => {
                    if self.allow_suicide {
                        true
                    } else {
                        !self.is_move_suicidal(p)
                    }
                },
                _ => false,
            }
        };
        let ghost before = *self;
        self.placement_cache.set(cache_idx, Some(can_place));
        proof {
            assert(self@ == before@);
            assert forall|q: Point| self@.grid.on(q) implies match self.placement_cache@[index_of(self.size as nat, q)] {
                Some(b) => b == legal(self@, q),
                None => true,
            } by {
                lemma_index_bounds(self@.grid, q);
                if q != p {
                    if index_of(self.size as nat, q) == index_of(self.size as nat, p) {
                        crate::grid::lemma_index_injective(self@.grid, q, p);
                    }
                    assert(self.placement_cache@[index_of(self.size as nat, q)] == before.placement_cache@[index_of(self.size as nat, q)]);
                }
            }
        }
        can_place
    }

    /// The stones that a stone of the side to move, just put at `p`, removes:
    /// opponent groups left without liberty, or else its own group when that has
    /// none.
    fn find_captured_stones(&self, p: Point) -> (r: Vec<Point>)
        requires
            self.wf(),
            self@.grid.on(p),
            self@.grid.at(p) == self@.turn,
        ensures
            r@.no_duplicates(),
            r@.to_set() == captures(self@.grid, p, self@.turn),
            forall|i: int|
                0 <= i < r.len() ==> self@.grid.on(#[trigger] r@[i]) && self@.grid.at(r@[i])
                    == removed_colour(self@.grid, p, self@.turn),
    {
        let ghost g = self@.grid;
        let ghost mover = self@.turn;
        let target = self.turn.get_other_player();
        let mut captures: Vec<Point> = Vec::new();
        let adj = self.get_adjacent(p);
        proof {
            lemma_neighbours(g, p);
            assert(captures@.to_set() =~= caps_upto(g, p, mover, 0));
        }
        let mut i: usize = 0;
        while i < adj.len()
            invariant
                self.wf(),
                g == self@.grid,
                mover == self@.turn,
                g.wf(),
                g.on(p),
                target == other(mover),
                adj@ == neighbours(g.size, p),
                0 <= i <= adj.len(),
                forall|j: int| 0 <= j < adj.len() ==> g.on(#[trigger] adj@[j]),
                captures@.no_duplicates(),
                captures@.to_set() == caps_upto(g, p, mover, i as int),
                forall|j: int|
                    0 <= j < captures.len() ==> g.on(#[trigger] captures@[j]) && g.at(captures@[j])
                        == target,
            decreases adj.len() - i,
        {
            let q = adj[i];
            let ghost prev = captures@;
            if self.get(q) == target && !holds(&captures, q) && self.count_liberties(q) == 0 {
                self.get_group(target, q, &mut captures);
                proof {
                    assert forall|j: int| 0 <= j < captures.len() implies g.on(#[trigger] captures@[j])
                        && g.at(captures@[j]) == target by {
                        let x = captures@[j];
                        assert(captures@.to_set().contains(x));
                        if prev.to_set().contains(x) {
                            let k = choose|k: int| 0 <= k < prev.len() && prev[k] == x;
                        } else {
                            lemma_connected_ends(g, target, q, x);
                        }
                    }
                }
            }
            proof {
                assert forall|x: Point| captures@.to_set().contains(x) <==> caps_upto(g, p, mover, i + 1).contains(x) by {
                    if caps_upto(g, p, mover, i + 1).contains(x) {
                        let j = choose|j: int|
                            0 <= j < i + 1 && g.at(#[trigger] adj@[j]) == other(mover) && liberty_count(g, adj@[j])
                                == 0 && group_of(g, other(mover), adj@[j]).contains(x);
                        if j == i && prev.contains(q) {
                            assert(prev.to_set().contains(q));
                            let k = choose|k: int|
                                0 <= k < i && g.at(#[trigger] adj@[k]) == other(mover) && liberty_count(g, adj@[k])
                                    == 0 && group_of(g, other(mover), adj@[k]).contains(q);
                            crate::grid::lemma_group_same(g, other(mover), adj@[k], q);
                            assert(caps_upto(g, p, mover, i as int).contains(x));
                        } else if j < i {
                            assert(caps_upto(g, p, mover, i as int).contains(x));
                        }
                    }
                    if captures@.to_set().contains(x) && !prev.to_set().contains(x) {
                        assert(group_of(g, other(mover), q).contains(x));
                        assert(0 <= i < i + 1 && g.at(adj@[i as int]) == other(mover) && liberty_count(g, adj@[i as int])
                                == 0 && group_of(g, other(mover), adj@[i as int]).contains(x));
                    }
                    if prev.to_set().contains(x) {
                        assert(caps_upto(g, p, mover, i as int).contains(x));
                        let j = choose|j: int|
                            0 <= j < i && g.at(#[trigger] adj@[j]) == other(mover) && liberty_count(g, adj@[j])
                                == 0 && group_of(g, other(mover), adj@[j]).contains(x);
                        assert(0 <= j < i + 1);
                    }
                }
                assert(captures@.to_set() =~= caps_upto(g, p, mover, i + 1));
            }
            i = i + 1;
        }
        proof {
            assert(caps_upto(g, p, mover, adj.len() as int) =~= opponent_captures(g, p, mover));
        }
        if captures.len() == 0 {
            proof {
                assert(captures@.to_set() =~= Set::<Point>::empty());
            }
            if self.count_liberties(p) == 0 {
                self.get_group(self.turn, p, &mut captures);
                proof {
                    assert(captures@.to_set() =~= group_of(g, mover, p));
                    assert forall|j: int| 0 <= j < captures.len() implies g.on(#[trigger] captures@[j])
                        && g.at(captures@[j]) == mover by {
                        assert(captures@.to_set().contains(captures@[j]));
                        lemma_connected_ends(g, mover, p, captures@[j]);
                    }
                }
            } else {
                assert(captures@.to_set() =~= Set::<Point>::empty());
            }
        } else {
            proof {
                assert(captures@.to_set().contains(captures@[0]));
                assert(opponent_captures(g, p, mover).contains(captures@[0]));
            }
        }
        captures
    }

    /// Puts a stone of the side to move at `p` when that is legal: captured
    /// stones are removed and credited (a counter stops at `i32::MAX`), ko is
    /// updated and the turn passes. An illegal move changes nothing.
    pub fn place(&mut self, p: Point)
        requires
            old(self).wf(),
        ensures
            final(self).wf(),
            legal(old(self)@, p) ==> placed(old(self)@, p, final(self)@),
            !legal(old(self)@, p) ==> final(self)@ == old(self)@,
    {
        if self.can_place(p) {
            let ghost v = self@;
            let ghost g1 = v.grid.with(p, v.turn);
            proof {
                assert(self@.wf());
            }
            self.placement_cache = blank_cache(self.size * self.size);
            proof {
                self.lemma_blank_cache();
            }
            let turn = self.turn;
            self.set(p, turn);
            proof {
                lemma_index_bounds(v.grid, p);
                assert(self@.grid == g1);
            }
            let captured = self.find_captured_stones(p);
            let ghost caps = captures(g1, p, turn);
            let ghost removed = removed_colour(g1, p, turn);
            let ghost credit = slot(other(removed));
            let mut i: usize = 0;
            while i < captured.len()
                invariant
                    self.wf(),
                    v.wf(),
                    g1 == v.grid.with(p, v.turn),
                    caps == captures(g1, p, turn),
                    removed == removed_colour(g1, p, turn),
                    credit == slot(other(removed)),
                    forall|j: int| 0 <= j < self.placement_cache.len() ==> #[trigger] self.placement_cache@[j] is None,
                    self@.grid.size == v.grid.size,
                    self@.grid.cells.len() == v.grid.cells.len(),
                    self@.turn == v.turn,
                    turn == v.turn,
                    self@.ko == v.ko,
                    self@.allow_suicide == v.allow_suicide,
                    captured@.no_duplicates(),
                    captured@.to_set() == caps,
                    forall|j: int|
                        0 <= j < captured.len() ==> g1.on(#[trigger] captured@[j]) && g1.at(captured@[j])
                            == removed,
                    forall|q: Point|
                        v.grid.on(q) ==> #[trigger] self@.grid.at(q) == (if captured@.subrange(0, i as int).contains(q) {
                            CellState::Empty
                        } else {
                            g1.at(q)
                        }),
                    self@.captured == v.captured.update(credit, sat_add(v.captured[credit] as int, i as int) as i32),
                    0 <= i <= captured.len(),
                decreases captured.len() - i,
            {
                let q = captured[i];
                proof {
                    if captured@.subrange(0, i as int).contains(q) {
                        let j = choose|j: int| 0 <= j < i && #[trigger] captured@.subrange(0, i as int)[j] == q;
                        assert(captured@[j] == captured@[i as int]);
                    }
                }
                let owner = self.get(q);
                let s = owner.get_other_player().slot();
                let c = self.captured_stones[s];
                let nc = if c < i32::MAX {
                    c + 1
                } else {
                    c
                };
                self.captured_stones.set(s, nc);
                proof {
                    assert(self@.captured == v.captured.update(credit, sat_add(v.captured[credit] as int, i + 1) as i32));
                    assert(forall|j: int| 0 <= j < 3 ==> #[trigger] self@.captured[j] >= 0);
                    self.lemma_blank_cache();
                }
                let ghost before = self@.grid;
                self.set(q, CellState::Empty);
                proof {
                    assert forall|x: Point| v.grid.on(x) implies #[trigger] self@.grid.at(x) == (if captured@.subrange(0, i + 1).contains(x) {
                        CellState::Empty
                    } else {
                        g1.at(x)
                    }) by {
                        lemma_prefix_step(captured@, i as int, x);
                        lemma_index_bounds(v.grid, x);
                        lemma_index_bounds(v.grid, q);
                        assert(before.size == v.grid.size);
                        if x != q {
                            if index_of(v.grid.size, x) == index_of(v.grid.size, q) {
                                crate::grid::lemma_index_injective(v.grid, x, q);
                            }
                            assert(self@.grid.at(x) == before.at(x));
                        }
                    }
                }
                i = i + 1;
            }
            proof {
                assert(captured@.subrange(0, captured.len() as int) == captured@);
                captured@.unique_seq_to_set();
            }
            let num_captured = captured.len();
            if num_captured == 1 && self.is_in_atari(p) {
                proof {
                    assert(captured@.to_set() =~= set![captured@[0]]);
                    assert(caps.contains(caps.choose()));
                    assert(captured@.subrange(0, 1).contains(captured@[0])) by {
                        assert(captured@.subrange(0, 1)[0] == captured@[0]);
                    }
                }
                self.ko = Some(captured[0]);
            } else {
                self.ko = None;
            }
            self.turn = turn.get_other_player();
            proof {
                assert(self@.wf());
                self.lemma_blank_cache();
                assert forall|q: Point| v.grid.on(q) implies #[trigger] self@.grid.at(q) == (if caps.contains(q) {
                    CellState::Empty
                } else {
                    g1.at(q)
                }) by {
                    assert(captured@.subrange(0, captured.len() as int).contains(q) == captured@.to_set().contains(q));
                }
            }
        }
    }

    /// Empties every point, clears captures and ko, and gives Black the move.
    pub fn reset(&mut self)
        requires
            old(self).wf(),
        ensures
            final(self).wf(),
            is_fresh(final(self)@, old(self)@.grid.size),
            final(self)@.allow_suicide == old(self)@.allow_suicide,
    {
        let n = self.size * self.size;
        let mut cells: Vec<CellState> = Vec::new();
        let mut i: usize = 0;
        while i < n
            invariant
                0 <= i <= n,
                cells.len() == i,
                forall|j: int| 0 <= j < i ==> #[trigger] cells@[j] == CellState::Empty,
            decreases n - i,
        {
            cells.push(CellState::Empty);
            i = i + 1;
        }
        self.cells = cells;
        self.turn = CellState::Black;
        self.captured_stones = vec![0, 0, 0];
        self.ko = None;
        self.placement_cache = blank_cache(n);
        proof {
            assert(self.captured_stones@ =~= seq![0i32, 0i32, 0i32]);
            self.lemma_blank_cache();
        }
    }

    /// The empty region that holds `p`, each point once, starting with `p`.
    pub fn get_territory(&self, p: Point) -> (r: Vec<Point>)
        requires
            self.wf(),
            self@.grid.on(p),
        ensures
            r@.no_duplicates(),
            r@.to_set() == territory(self@.grid, p),
            self@.grid.at(p) == CellState::Empty ==> r.len() > 0 && r@[0] == p,
            self@.grid.at(p) != CellState::Empty ==> r.len() == 0,
    {
        self.flood(CellState::Empty, p)
    }

    /// The points of the territory of `p` that touch a point outside it, in the
    /// order in which `get_territory` lists them.
    pub fn get_boundary(&self, p: Point) -> (r: Vec<Point>)
        requires
            self.wf(),
            self@.grid.on(p),
        ensures
            r@.no_duplicates(),
            r@.to_set() == boundary(self@.grid, p),
    {
        let ghost g = self@.grid;
        let region = self.get_territory(p);
        let ghost tset = territory(g, p);
        let mut edge: Vec<Point> = Vec::new();
        let mut i: usize = 0;
        while i < region.len()
            invariant
                self.wf(),
                g == self@.grid,
                g.wf(),
                region@.no_duplicates(),
                region@.to_set() == tset,
                tset == territory(g, p),
                0 <= i <= region.len(),
                edge@.no_duplicates(),
                forall|x: Point|
                    #[trigger] edge@.contains(x) <==> (region@.subrange(0, i as int).contains(x)
                        && on_edge(g, tset, x)),
            decreases region.len() - i,
        {
            let t = region[i];
            assert(tset.contains(t));
            proof {
                lemma_connected_ends(g, CellState::Empty, p, t);
                lemma_neighbours(g, t);
            }
            let adj = self.get_adjacent(t);
            let mut all_inside = true;
            let mut k: usize = 0;
            while k < adj.len()
                invariant
                    self.wf(),
                    g == self@.grid,
                    region@.to_set() == tset,
                    adj@ == neighbours(g.size, t),
                    0 <= k <= adj.len(),
                    all_inside <==> forall|j: int| 0 <= j < k ==> tset.contains(#[trigger] adj@[j]),
                decreases adj.len() - k,
            {
                if !holds(&region, adj[k]) {
                    all_inside = false;
                }
                k = k + 1;
            }
            let ghost prev = edge@;
            proof {
                assert(all_inside <==> !on_edge(g, tset, t)) by {
                    if !all_inside {
                        let j = choose|j: int| 0 <= j < adj.len() && !tset.contains(#[trigger] adj@[j]);
                        assert(g.on(adj@[j]) && crate::point::adjacent(t, adj@[j]));
                    }
                    if on_edge(g, tset, t) {
                        let n = choose|n: Point| g.on(n) && crate::point::adjacent(t, n) && !tset.contains(n);
                        let j = choose|j: int| 0 <= j < adj.len() && adj@[j] == n;
                    }
                }
                if region@.subrange(0, i as int).contains(t) {
                    let j = choose|j: int| 0 <= j < i && #[trigger] region@.subrange(0, i as int)[j] == t;
                    assert(region@[j] == region@[i as int]);
                }
            }
            if !all_inside {
                assert(!prev.contains(t));
                edge.push(t);
                assert forall|a: int, b: int| 0 <= a < b < edge.len() implies edge@[a] != edge@[b] by {
                    if b == edge.len() - 1 {
                        assert(prev[a] == edge@[a]);
                    } else {
                        assert(prev[a] == edge@[a] && prev[b] == edge@[b]);
                    }
                }
            }
            proof {
                assert forall|x: Point|
                    #[trigger] edge@.contains(x) <==> (region@.subrange(0, i + 1).contains(x)
                        && on_edge(g, tset, x)) by {
                    lemma_prefix_step(region@, i as int, x);
                    lemma_push_contains(prev, t, x);
                }
            }
            i = i + 1;
        }
        proof {
            assert(region@.subrange(0, region.len() as int) == region@);
            assert(edge@.to_set() =~= boundary(g, p));
        }
        edge
    }

    /// An empty board of side `size`, Black to move.
    pub fn new(size: usize) -> (r: Board)
        requires
            size * size <= usize::MAX,
            size <= i32::MAX,
        ensures
            r.wf(),
            is_fresh(r@, size as nat),
            !r@.allow_suicide,
    {
        let n = size * size;
        let mut cells: Vec<CellState> = Vec::new();
        let mut i: usize = 0;
        while i < n
            invariant
                0 <= i <= n,
                cells.len() == i,
                forall|j: int| 0 <= j < i ==> #[trigger] cells@[j] == CellState::Empty,
            decreases n - i,
        {
            cells.push(CellState::Empty);
            i = i + 1;
        }
        let r = Board {
            cells,
            size,
            captured_stones: vec![0, 0, 0],
            turn: CellState::Black,
            ko: None,
            allow_suicide: false,
            placement_cache: blank_cache(n),
        };
        assert(r.captured_stones@ =~= seq![0i32, 0i32, 0i32]);
        proof {
            r.lemma_blank_cache();
        }
        r
    }

    /// A board read from a diagram: one line per row, `B`/`b` for Black, `W`/`w`
    /// for White, anything else for an empty point. The text may be surrounded by
    /// white space, and so may each line. `None` when the rows are not all as long
    /// as there are rows.
    pub fn from_str(s: &str, turn: CellState) -> (r: Option<Board>)
        requires
            turn != CellState::Empty,
        ensures
            r is Some <==> is_square(diagram_rows(s@)),
            r matches Some(b) ==> b.wf() && loaded(b@, diagram_rows(s@), turn),
    {
        let rows = parse_rows(s);
        let ghost spec_rows = diagram_rows(s@);
        let size = rows.len();
        let mut k: usize = 0;
        while k < size
            invariant
                0 <= k <= size,
                size == rows.len(),
                size == spec_rows.len(),
                spec_rows == diagram_rows(s@),
                forall|j: int| 0 <= j < rows.len() ==> #[trigger] rows@[j]@ == spec_rows[j],
                forall|j: int| 0 <= j < k ==> #[trigger] spec_rows[j].len() == size,
            decreases size - k,
        {
            if rows[k].len() != size {
                assert(spec_rows[k as int].len() != spec_rows.len());
                return None;
            }
            k = k + 1;
        }
        if size > i32::MAX as usize {
            return None;
        }
        let mut cells: Vec<CellState> = Vec::new();
        let mut y: usize = 0;
        while y < size
            invariant
                0 <= y <= size,
                size == rows.len(),
                size == spec_rows.len(),
                spec_rows == diagram_rows(s@),
                forall|j: int| 0 <= j < rows.len() ==> #[trigger] rows@[j]@ == spec_rows[j],
                forall|j: int| 0 <= j < size ==> #[trigger] spec_rows[j].len() == size,
                cells.len() == y * size,
                forall|yy: int, xx: int|
                    0 <= yy < y && 0 <= xx < size ==> cells@[#[trigger] (yy * size + xx)] == spec_rows[yy][xx],
            decreases size - y,
        {
            let mut x: usize = 0;
            let ghost done = cells@;
            while x < size
                invariant
                    0 <= x <= size,
                    0 <= y < size,
                    size == rows.len(),
                    forall|j: int| 0 <= j < rows.len() ==> #[trigger] rows@[j]@ == spec_rows[j],
                    forall|j: int| 0 <= j < size ==> #[trigger] spec_rows[j].len() == size,
                    done.len() == y * size,
                    cells.len() == y * size + x,
                    cells@.subrange(0, done.len() as int) == done,
                    forall|xx: int| 0 <= xx < x ==> cells@[#[trigger] (y * size + xx)] == spec_rows[y as int][xx],
                decreases size - x,
            {
                assert(rows@[y as int]@ == spec_rows[y as int]);
                cells.push(rows[y][x]);
                assert(cells@.subrange(0, done.len() as int) =~= done);
                x = x + 1;
            }
            proof {
                assert(cells.len() == (y + 1) * size) by (nonlinear_arith)
                    requires
                        cells.len() == y * size + size,
                ;
                assert forall|yy: int, xx: int|
                    0 <= yy < y + 1 && 0 <= xx < size implies cells@[#[trigger] (yy * size + xx)] == spec_rows[yy][xx] by {
                    if yy < y {
                        assert(yy * size + xx < y * size) by (nonlinear_arith)
                            requires
                                0 <= yy < y,
                                0 <= xx < size,
                        ;
                        assert(cells@[yy * size + xx] == done[yy * size + xx]);
                    }
                }
            }
            y = y + 1;
        }
        let n = cells.len();
        let b = Board {
            cells,
            size,
            captured_stones: vec![0, 0, 0],
            turn,
            ko: None,
            allow_suicide: false,
            placement_cache: blank_cache(n),
        };
        proof {
            assert(b.captured_stones@ =~= seq![0i32, 0i32, 0i32]);
            b.lemma_blank_cache();
            assert forall|q: Point| b@.grid.on(q) implies #[trigger] b@.grid.at(q) == spec_rows[q.y as int][q.x as int] by {
                assert(b@.grid.at(q) == cells@[q.y * size + q.x]);
            }
        }
        Some(b)
    }

    pub fn get_size(&self) -> (r: usize)
        ensures
            r as nat == self@.grid.size,
    {
        self.size
    }

    pub fn get_turn(&self) -> (r: CellState)
        ensures
            r == self@.turn,
    {
        self.turn
    }

    /// How many stones of the opponent of `c` have been captured.
    pub fn get_captured_stones(&self, c: CellState) -> (r: i32)
        requires
            self.wf(),
        ensures
            r == self@.captured_of(c),
    {
        self.captured_stones[c.slot()]
    }

    /// Whether a move that leaves its own group without liberty is allowed.
    pub fn get_allow_suicide(&self) -> (r: bool)
        ensures
            r == self@.allow_suicide,
    {
        self.allow_suicide
    }

    /// Allows or forbids suicide; the remembered legality answers are dropped.
    pub fn set_allow_suicide(&mut self, allow: bool)
        requires
            old(self).wf(),
        ensures
            final(self).wf(),
            final(self)@ == (BoardView { allow_suicide: allow, ..old(self)@ }),
    {
        self.placement_cache = blank_cache(self.size * self.size);
        self.allow_suicide = allow;
        proof {
            self.lemma_blank_cache();
        }
    }

    /// Puts `c` at `p`; the legality answers must already be dropped.
    fn set(&mut self, p: Point, c: CellState)
        requires
            old(self).wf(),
            old(self)@.grid.on(p),
            forall|i: int| 0 <= i < old(self).placement_cache.len() ==> #[trigger] old(self).placement_cache@[i] is None,
            c != CellState::Empty ==> old(self)@.ko != Some(p),
        ensures
            final(self).wf(),
            final(self)@ == (BoardView { grid: old(self)@.grid.with(p, c), ..old(self)@ }),
            forall|i: int| 0 <= i < final(self).placement_cache.len() ==> #[trigger] final(self).placement_cache@[i] is None,
    {
        proof {
            lemma_index_bounds(self@.grid, p);
        }
        let i = p.y as usize * self.size + p.x as usize;
        self.cells.set(i, c);
        assert(self@.grid == old(self)@.grid.with(p, c));
        proof {
            if self.ko is Some {
                let kp = self.ko->Some_0;
                assert(old(self)@.grid.on(kp) && old(self)@.grid.at(kp) == CellState::Empty);
                if kp != p {
                    assert(index_of(self.size as nat, kp) != index_of(self.size as nat, p)) by {
                        if index_of(self.size as nat, kp) == index_of(self.size as nat, p) {
                            crate::grid::lemma_index_injective(old(self)@.grid, kp, p);
                        }
                    }
                    lemma_index_bounds(old(self)@.grid, kp);
                    assert(self@.grid.at(kp) == old(self)@.grid.at(kp));
                } else {
                    assert(c == CellState::Empty);
                }
            }
            assert(self@.captured == old(self)@.captured);
            assert(old(self)@.wf());
            assert(self@.grid.wf());
            assert(forall|i: int| 0 <= i < 3 ==> #[trigger] self@.captured[i] >= 0);
            assert(self@.ko matches Some(k) ==> self@.grid.on(k) && self@.grid.at(k) == CellState::Empty);
            assert(self@.wf());
            self.lemma_blank_cache();
        }
    }

    /// Adds to `members` the points of the group of `start` that holds `p` that it
    /// lacks, keeping what it held in front.
    pub fn get_group(&self, start: CellState, p: Point, members: &mut Vec<Point>)
        requires
            self.wf(),
            self@.grid.on(p),
        ensures
            final(members)@.len() >= old(members)@.len(),
            final(members)@.subrange(0, old(members)@.len() as int) == old(members)@,
            final(members)@.to_set() == old(members)@.to_set().union(group_of(self@.grid, start, p)),
            old(members)@.no_duplicates() ==> final(members)@.no_duplicates(),
            self@.grid.at(p) != start ==> final(members)@ == old(members)@,
    {
        let found = self.flood(start, p);
        let ghost before = members@;
        let mut i: usize = 0;
        while i < found.len()
            invariant
                0 <= i <= found.len(),
                before.len() <= members@.len() <= before.len() + i,
                members@.subrange(0, before.len() as int) == before,
                forall|x: Point|
                    #[trigger] members@.contains(x) <==> (before.contains(x) || found@.subrange(
                        0,
                        i as int,
                    ).contains(x)),
                before.no_duplicates() ==> members@.no_duplicates(),
            decreases found.len() - i,
        {
            let q = found[i];
            let ghost prev = members@;
            if !holds(members, q) {
                members.push(q);
                assert(members@.subrange(0, before.len() as int) =~= prev.subrange(0, before.len() as int));
            }
            assert forall|x: Point|
                #[trigger] members@.contains(x) <==> (before.contains(x) || found@.subrange(
                    0,
                    i + 1,
                ).contains(x)) by {
                lemma_prefix_step(found@, i as int, x);
                lemma_push_contains(prev, q, x);
            }
            i = i + 1;
        }
        assert(found@.subrange(0, found.len() as int) == found@);
        assert(found.len() == 0 ==> members@ =~= before);
        assert(members@.to_set() =~= before.to_set().union(group_of(self@.grid, start, p)));
    }

    /// The empty points next to the group of the stone at `p`, each once.
    pub fn get_liberties(&self, p: Point) -> (r: Vec<Point>)
        requires
            self.wf(),
            self@.grid.on(p),
        ensures
            r@.no_duplicates(),
            r@.to_set() == liberties(self@.grid, p),
    {
        let ghost g = self@.grid;
        let mut libs: Vec<Point> = Vec::new();
        let player = self.get(p);
        if player != CellState::Empty {
            let stones = self.flood(player, p);
            let mut i: usize = 0;
            while i < stones.len()
                invariant
                    self.wf(),
                    g == self@.grid,
                    g.wf(),
                    player == g.at(p),
                    stones@.to_set() == group_of(g, player, p),
                    forall|j: int| 0 <= j < stones.len() ==> g.on(#[trigger] stones@[j]),
                    0 <= i <= stones.len(),
                    libs@.no_duplicates(),
                    forall|x: Point|
                        #[trigger] libs@.contains(x) <==> (g.on(x) && g.at(x) == CellState::Empty
                            && touches(stones@, i as int, x)),
                decreases stones.len() - i,
            {
                let u = stones[i];
                let adj = self.get_adjacent(u);
                proof {
                    lemma_neighbours(g, u);
                }
                let mut k: usize = 0;
                while k < adj.len()
                    invariant
                        self.wf(),
                        g == self@.grid,
                        g.wf(),
                        g.on(u),
                        u == stones@[i as int],
                        0 <= i < stones.len(),
                        adj@ == neighbours(g.size, u),
                        0 <= k <= adj.len(),
                        libs@.no_duplicates(),
                        forall|x: Point|
                            #[trigger] libs@.contains(x) <==> (g.on(x) && g.at(x) == CellState::Empty
                                && (touches(stones@, i as int, x) || adj@.subrange(0, k as int).contains(x))),
                    decreases adj.len() - k,
                {
                    let q = adj[k];
                    let ghost prev = libs@;
                    if self.get(q) == CellState::Empty && !holds(&libs, q) {
                        libs.push(q);
                    }
                    assert forall|x: Point|
                        #[trigger] libs@.contains(x) <==> (g.on(x) && g.at(x) == CellState::Empty
                            && (touches(stones@, i as int, x) || adj@.subrange(0, k + 1).contains(x))) by {
                        lemma_prefix_step(adj@, k as int, x);
                        lemma_push_contains(prev, q, x);
                    }
                    k = k + 1;
                }
                assert forall|x: Point|
                    #[trigger] libs@.contains(x) <==> (g.on(x) && g.at(x) == CellState::Empty
                        && touches(stones@, i + 1, x)) by {
                    assert(adj@.subrange(0, adj.len() as int) == adj@);
                    if touches(stones@, i as int, x) {
                        let j = choose|j: int| 0 <= j < i && crate::point::adjacent(#[trigger] stones@[j], x);
                        assert(0 <= j < i + 1 && crate::point::adjacent(stones@[j], x));
                    }
                    if adj@.contains(x) {
                        let j = choose|j: int| 0 <= j < adj.len() && adj@[j] == x;
                        assert(crate::point::adjacent(stones@[i as int], x));
                    }
                    if g.on(x) && touches(stones@, i + 1, x) && !touches(stones@, i as int, x) {
                        assert(crate::point::adjacent(u, x));
                    }
                }
                i = i + 1;
            }
            proof {
                assert forall|x: Point| libs@.to_set().contains(x) <==> liberties(g, p).contains(x) by {
                    if touches(stones@, stones.len() as int, x) {
                        let j = choose|j: int| 0 <= j < stones.len() && crate::point::adjacent(#[trigger] stones@[j], x);
                        assert(stones@.to_set().contains(stones@[j]));
                    }
                    if liberties(g, p).contains(x) {
                        let s = choose|s: Point| group_of(g, g.at(p), p).contains(s) && crate::point::adjacent(s, x);
                        assert(stones@.to_set().contains(s));
                        let j = choose|j: int| 0 <= j < stones.len() && stones@[j] == s;
                        assert(crate::point::adjacent(stones@[j], x));
                    }
                }
                assert(libs@.to_set() =~= liberties(g, p));
            }
        } else {
            assert(libs@.to_set() =~= liberties(g, p));
        }
        libs
    }

    /// The number of liberties of the group of the stone at `p`.
    pub fn count_liberties(&self, p: Point) -> (r: usize)
        requires
            self.wf(),
            self@.grid.on(p),
        ensures
            r as int == liberty_count(self@.grid, p),
            liberties(self@.grid, p).finite(),
    {
        let libs = self.get_liberties(p);
        proof {
            libs@.unique_seq_to_set();
        }
        libs.len()
    }

    /// The group of the stone at `p` has exactly one liberty.
    pub fn is_in_atari(&self, p: Point) -> (r: bool)
        requires
            self.wf(),
            self@.grid.on(p),
        ensures
            r == (liberty_count(self@.grid, p) == 1),
    {
        self.count_liberties(p) == 1
    }
}

/// Membership in a prefix one longer.
proof fn lemma_prefix_step(s: Seq<Point>, i: int, x: Point)
    requires
        0 <= i < s.len(),
    ensures
        s.subrange(0, i + 1).contains(x) <==> (s.subrange(0, i).contains(x) || x == s[i]),
{
    if s.subrange(0, i + 1).contains(x) && x != s[i] {
        let j = choose|j: int| 0 <= j < i + 1 && #[trigger] s.subrange(0, i + 1)[j] == x;
        assert(s.subrange(0, i)[j] == x);
    }
    if s.subrange(0, i).contains(x) {
        let j = choose|j: int| 0 <= j < i && #[trigger] s.subrange(0, i)[j] == x;
        assert(s.subrange(0, i + 1)[j] == x);
    }
    if x == s[i] {
        assert(s.subrange(0, i + 1)[i] == x);
    }
}

/// Membership after a push.
proof fn lemma_push_contains(s: Seq<Point>, q: Point, x: Point)
    ensures
        s.push(q).contains(x) <==> (s.contains(x) || x == q),
{
    if s.push(q).contains(x) && x != q {
        let j = choose|j: int| 0 <= j < s.len() + 1 && #[trigger] s.push(q)[j] == x;
        assert(s[j] == x);
    }
    if s.contains(x) {
        let j = choose|j: int| 0 <= j < s.len() && #[trigger] s[j] == x;
        assert(s.push(q)[j] == x);
    }
    assert(s.push(q)[s.len() as int] == q);
}

/// A legality table that knows nothing yet.
fn blank_cache(n: usize) -> (r: Vec<Option<bool>>)
    ensures
        r.len() == n,
        forall|i: int| 0 <= i < n ==> #[trigger] r@[i] is None,
{
    let mut r: Vec<Option<bool>> = Vec::new();
    let mut i: usize = 0;
    while i < n
        invariant
            0 <= i <= n,
            r.len() == i,
            forall|j: int| 0 <= j < i ==> #[trigger] r@[j] is None,
        decreases n - i,
    {
        r.push(None);
        i = i + 1;
    }
    r
}

/// The opponent stones captured through the first `n` neighbours of `p`.
spec fn caps_upto(g: Grid, p: Point, mover: CellState, n: int) -> Set<Point> {
    let ns = neighbours(g.size, p);
    Set::new(
        |s: Point|
            exists|i: int|
                0 <= i < n && g.at(#[trigger] ns[i]) == other(mover) && liberty_count(g, ns[i]) == 0
                    && group_of(g, other(mover), ns[i]).contains(s),
    )
}

/// `t` has an on-board neighbour outside `region`.
spec fn on_edge(g: Grid, region: Set<Point>, t: Point) -> bool {
    exists|n: Point| g.on(n) && crate::point::adjacent(t, n) && !region.contains(n)
}

/// `x` is next to one of the first `n` points of `s`.
spec fn touches(s: Seq<Point>, n: int, x: Point) -> bool {
    exists|j: int| 0 <= j < n && crate::point::adjacent(#[trigger] s[j], x)
}

} // verus!
