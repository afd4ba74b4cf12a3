use vstd::prelude::*;
use vstd::set_lib::{lemma_int_range, lemma_len_subset, set_int_range};

use crate::cell_state::CellState;
use crate::point::{adjacent, on_board, Point};

verus! {

/// The stones on a square board of side `size`, row by row.
pub struct Grid {
    pub size: nat,
    pub cells: Seq<CellState>,
}

/// Where point `p` sits in the row-major cell sequence of a board of side `size`.
pub open spec fn index_of(size: nat, p: Point) -> int {
    p.y * size + p.x
}

impl Grid {
    pub open spec fn wf(self) -> bool {
        &&& self.cells.len() == self.size * self.size
        &&& self.size * self.size <= usize::MAX
        &&& self.size <= i32::MAX
    }

    pub open spec fn on(self, p: Point) -> bool {
        on_board(self.size as int, p)
    }

    pub open spec fn at(self, p: Point) -> CellState {
        self.cells[index_of(self.size, p)]
    }

    /// The grid with the stone at `p` replaced by `c`.
    pub open spec fn with(self, p: Point, c: CellState) -> Grid {
        Grid { size: self.size, cells: self.cells.update(index_of(self.size, p), c) }
    }
}

/// The orthogonal neighbours of an on-board point that lie on the board, in the
/// order west, east, north, south.
pub open spec fn neighbours(size: nat, p: Point) -> Seq<Point> {
    let w: Seq<Point> = if p.x >= 1 {
        seq![Point { x: (p.x - 1) as i32, y: p.y }]
    } else {
        Seq::empty()
    };
    let e: Seq<Point> = if p.x + 1 < size {
        seq![Point { x: (p.x + 1) as i32, y: p.y }]
    } else {
        Seq::empty()
    };
    let n: Seq<Point> = if p.y >= 1 {
        seq![Point { x: p.x, y: (p.y - 1) as i32 }]
    } else {
        Seq::empty()
    };
    let s: Seq<Point> = if p.y + 1 < size {
        seq![Point { x: p.x, y: (p.y + 1) as i32 }]
    } else {
        Seq::empty()
    };
    w + e + n + s
}

/// A path of orthogonally adjacent on-board points that all hold `color`.
pub open spec fn is_chain(g: Grid, color: CellState, path: Seq<Point>) -> bool {
    &&& forall|i: int|
        0 <= i < path.len() ==> g.on(#[trigger] path[i]) && g.at(path[i]) == color
    &&& forall|i: int| 0 <= i < path.len() - 1 ==> adjacent(#[trigger] path[i], path[i + 1])
}

/// `q` is reached from `p` by a chain of `color`.
pub open spec fn connected(g: Grid, color: CellState, p: Point, q: Point) -> bool {
    exists|path: Seq<Point>|
        #![trigger is_chain(g, color, path), path.len()]
        is_chain(g, color, path) && path.len() > 0 && path[0] == p && path.last() == q
}

/// The maximal connected set of `color` that holds `p` (empty when `p` is not `color`).
pub open spec fn group_of(g: Grid, color: CellState, p: Point) -> Set<Point> {
    Set::new(|q: Point| connected(g, color, p, q))
}

/// The empty points next to the group of the stone at `p`; none for an empty point.
pub open spec fn liberties(g: Grid, p: Point) -> Set<Point> {
    Set::new(
        |q: Point|
            g.at(p) != CellState::Empty && g.on(q) && g.at(q) == CellState::Empty && exists|s: Point|
                group_of(g, g.at(p), p).contains(s) && adjacent(s, q),
    )
}

pub open spec fn liberty_count(g: Grid, p: Point) -> int {
    liberties(g, p).len() as int
}

/// The empty region that holds `p` (empty when `p` holds a stone).
pub open spec fn territory(g: Grid, p: Point) -> Set<Point> {
    group_of(g, CellState::Empty, p)
}

/// The points of the territory of `p` with an on-board neighbour outside it.
pub open spec fn boundary(g: Grid, p: Point) -> Set<Point> {
    Set::new(
        |t: Point|
            territory(g, p).contains(t) && exists|n: Point|
                g.on(n) && adjacent(t, n) && !territory(g, p).contains(n),
    )
}

/// Every on-board neighbour of `f` that holds `color` is in `s`.
pub open spec fn closed_at(g: Grid, color: CellState, s: Seq<Point>, f: Point) -> bool {
    forall|n: Point| g.on(n) && adjacent(f, n) && g.at(n) == color ==> #[trigger] s.contains(n)
}

pub proof fn lemma_index_bounds(g: Grid, p: Point)
    requires
        g.on(p),
    ensures
        0 <= index_of(g.size, p) < g.size * g.size,
        index_of(g.size, p) + 1 <= g.size * g.size,
{
    let s = g.size as int;
    let x = p.x as int;
    let y = p.y as int;
    assert(0 <= y * s + x < s * s) by (nonlinear_arith)
        requires
            0 <= x < s,
            0 <= y < s,
    ;
}

pub proof fn lemma_index_injective(g: Grid, p: Point, q: Point)
    requires
        g.on(p),
        g.on(q),
        index_of(g.size, p) == index_of(g.size, q),
    ensures
        p == q,
{
    let s = g.size as int;
    let (px, py, qx, qy) = (p.x as int, p.y as int, q.x as int, q.y as int);
    assert(py == qy) by (nonlinear_arith)
        requires
            0 <= px < s,
            0 <= qx < s,
            0 <= py,
            0 <= qy,
            py * s + px == qy * s + qx,
    {
        if py < qy {
            assert(qy * s >= (py + 1) * s);
        } else if qy < py {
            assert(py * s >= (qy + 1) * s);
        }
    }
}

/// The neighbour sequence holds exactly the on-board points adjacent to `p`, once each.
pub proof fn lemma_neighbours(g: Grid, p: Point)
    requires
        g.wf(),
        g.on(p),
    ensures
        neighbours(g.size, p).no_duplicates(),
        forall|i: int|
            0 <= i < neighbours(g.size, p).len() ==> g.on(#[trigger] neighbours(g.size, p)[i])
                && adjacent(p, neighbours(g.size, p)[i]),
        forall|q: Point| g.on(q) && adjacent(p, q) ==> neighbours(g.size, p).contains(q),
{
    let ns = neighbours(g.size, p);
    assert forall|q: Point| g.on(q) && adjacent(p, q) implies ns.contains(q) by {
        if q.x == p.x - 1 {
            assert(ns[0] == q);
        } else if q.x == p.x + 1 {
            let k: int = if p.x >= 1 { 1 } else { 0 };
            assert(ns[k] == q);
        } else if q.y == p.y - 1 {
            let k: int = (if p.x >= 1 { 1int } else { 0 }) + (if p.x + 1 < g.size { 1int } else { 0 });
            assert(ns[k] == q);
        } else {
            let k: int = (if p.x >= 1 { 1int } else { 0 }) + (if p.x + 1 < g.size { 1int } else { 0 }) + (
            if p.y >= 1 { 1int } else { 0 });
            assert(ns[k] == q);
        }
    }
}

/// A point that holds `color` is connected to itself.
pub proof fn lemma_connected_refl(g: Grid, color: CellState, p: Point)
    requires
        g.on(p),
        g.at(p) == color,
    ensures
        connected(g, color, p, p),
{
    let path = seq![p];
    assert(is_chain(g, color, path));
    assert(path.len() > 0 && path[0] == p && path.last() == p);
}

/// A chain from `p` to `u` extends by one step to a neighbour `q` of the same colour.
pub proof fn lemma_connected_step(g: Grid, color: CellState, p: Point, u: Point, q: Point)
    requires
        connected(g, color, p, u),
        g.on(q),
        g.at(q) == color,
        adjacent(u, q),
    ensures
        connected(g, color, p, q),
{
    let path = choose|path: Seq<Point>|
        #![trigger is_chain(g, color, path), path.len()]
        is_chain(g, color, path) && path.len() > 0 && path[0] == p && path.last() == u;
    let ext = path.push(q);
    assert(is_chain(g, color, ext)) by {
        assert forall|i: int| 0 <= i < ext.len() - 1 implies adjacent(#[trigger] ext[i], ext[i + 1]) by {
            if i < path.len() - 1 {
                assert(adjacent(path[i], path[i + 1]));
            }
        }
        assert forall|i: int| 0 <= i < ext.len() implies g.on(#[trigger] ext[i]) && g.at(ext[i]) == color by {
            if i < path.len() {
                assert(g.on(path[i]));
            }
        }
    }
    assert(ext[0] == p && ext.last() == q);
}

/// Connection runs both ways.
pub proof fn lemma_connected_sym(g: Grid, color: CellState, p: Point, q: Point)
    requires
        connected(g, color, p, q),
    ensures
        connected(g, color, q, p),
{
    let path = choose|path: Seq<Point>|
        #![trigger is_chain(g, color, path), path.len()]
        is_chain(g, color, path) && path.len() > 0 && path[0] == p && path.last() == q;
    let rev = path.reverse();
    assert(is_chain(g, color, rev)) by {
        assert forall|i: int| 0 <= i < rev.len() - 1 implies adjacent(#[trigger] rev[i], rev[i + 1]) by {
            let j = path.len() - 2 - i;
            assert(adjacent(path[j], path[j + 1]));
            assert(rev[i] == path[j + 1] && rev[i + 1] == path[j]);
        }
        assert forall|i: int| 0 <= i < rev.len() implies g.on(#[trigger] rev[i]) && g.at(rev[i]) == color by {
            assert(rev[i] == path[path.len() - 1 - i]);
        }
    }
    assert(rev[0] == q && rev.last() == p);
}

/// Connections compose.
pub proof fn lemma_connected_trans(g: Grid, color: CellState, p: Point, q: Point, r: Point)
    requires
        connected(g, color, p, q),
        connected(g, color, q, r),
    ensures
        connected(g, color, p, r),
{
    let a = choose|path: Seq<Point>|
        #![trigger is_chain(g, color, path), path.len()]
        is_chain(g, color, path) && path.len() > 0 && path[0] == p && path.last() == q;
    let b = choose|path: Seq<Point>|
        #![trigger is_chain(g, color, path), path.len()]
        is_chain(g, color, path) && path.len() > 0 && path[0] == q && path.last() == r;
    let c = a + b.drop_first();
    assert(is_chain(g, color, c)) by {
        assert forall|i: int| 0 <= i < c.len() implies g.on(#[trigger] c[i]) && g.at(c[i]) == color by {
            if i < a.len() {
                assert(c[i] == a[i]);
            } else {
                assert(c[i] == b[i - a.len() + 1]);
            }
        }
        assert forall|i: int| 0 <= i < c.len() - 1 implies adjacent(#[trigger] c[i], c[i + 1]) by {
            if i < a.len() - 1 {
                assert(c[i] == a[i] && c[i + 1] == a[i + 1]);
                assert(adjacent(a[i], a[i + 1]));
            } else if i == a.len() - 1 {
                assert(c[i] == q && c[i + 1] == b[1]);
                assert(b[0] == q);
                assert(adjacent(b[0], b[1]));
            } else {
                let j = i - a.len() + 1;
                assert(c[i] == b[j] && c[i + 1] == b[j + 1]);
                assert(adjacent(b[j], b[j + 1]));
            }
        }
    }
    if b.len() == 1 {
        assert(c.last() == a.last());
    } else {
        assert(c.last() == b.last());
    }
    assert(c[0] == p);
}

/// Every point of a group has that same group.
pub proof fn lemma_group_same(g: Grid, color: CellState, p: Point, q: Point)
    requires
        group_of(g, color, p).contains(q),
    ensures
        group_of(g, color, q) == group_of(g, color, p),
{
    assert forall|r: Point| group_of(g, color, q).contains(r) <==> group_of(g, color, p).contains(r) by {
        if connected(g, color, q, r) {
            lemma_connected_trans(g, color, p, q, r);
        }
        if connected(g, color, p, r) {
            lemma_connected_sym(g, color, p, q);
            lemma_connected_trans(g, color, q, p, r);
        }
    }
    assert(group_of(g, color, q) =~= group_of(g, color, p));
}

/// Both ends of a connection hold the colour and lie on the board.
pub proof fn lemma_connected_ends(g: Grid, color: CellState, p: Point, q: Point)
    requires
        connected(g, color, p, q),
    ensures
        g.on(p),
        g.at(p) == color,
        g.on(q),
        g.at(q) == color,
{
    let path = choose|path: Seq<Point>|
        #![trigger is_chain(g, color, path), path.len()]
        is_chain(g, color, path) && path.len() > 0 && path[0] == p && path.last() == q;
    assert(g.on(path[0]));
    assert(g.on(path[path.len() - 1]));
}

/// Every point of a chain that starts in a closed set lies in that set.
proof fn lemma_chain_in_closed(g: Grid, color: CellState, s: Seq<Point>, path: Seq<Point>, k: int)
    requires
        is_chain(g, color, path),
        0 <= k < path.len(),
        s.contains(path[0]),
        forall|i: int| 0 <= i < s.len() ==> closed_at(g, color, s, #[trigger] s[i]),
    ensures
        s.contains(path[k]),
    decreases k,
{
    if k > 0 {
        lemma_chain_in_closed(g, color, s, path, k - 1);
        let j = choose|j: int| 0 <= j < s.len() && s[j] == path[k - 1];
        assert(closed_at(g, color, s, s[j]));
        assert(adjacent(path[k - 1], path[k]));
        assert(g.on(path[k]));
    }
}

/// A set of points closed under same-colour adjacency that holds `p` holds all of
/// the group of `p`.
pub proof fn lemma_closed_holds_group(g: Grid, color: CellState, s: Seq<Point>, p: Point, q: Point)
    requires
        s.contains(p),
        forall|i: int| 0 <= i < s.len() ==> closed_at(g, color, s, #[trigger] s[i]),
        connected(g, color, p, q),
    ensures
        s.contains(q),
{
    let path = choose|path: Seq<Point>|
        #![trigger is_chain(g, color, path), path.len()]
        is_chain(g, color, path) && path.len() > 0 && path[0] == p && path.last() == q;
    lemma_chain_in_closed(g, color, s, path, path.len() - 1);
}

/// On a board of side `size`, distinct on-board points number at most `size * size`.
pub proof fn lemma_points_bound(g: Grid, s: Seq<Point>)
    requires
        s.no_duplicates(),
        forall|i: int| 0 <= i < s.len() ==> g.on(#[trigger] s[i]),
    ensures
        s.len() <= g.size * g.size,
{
    let m = s.map_values(|q: Point| index_of(g.size, q));
    assert(m.no_duplicates()) by {
        assert forall|i: int, j: int| 0 <= i < m.len() && 0 <= j < m.len() && i != j implies m[i]
            != m[j] by {
            if m[i] == m[j] {
                lemma_index_injective(g, s[i], s[j]);
            }
        }
    }
    let full = set_int_range(0, (g.size * g.size) as int);
    lemma_int_range(0, (g.size * g.size) as int);
    assert(m.to_set().subset_of(full)) by {
        assert forall|v: int| m.to_set().contains(v) implies full.contains(v) by {
            let i = choose|i: int| 0 <= i < m.len() && m[i] == v;
            lemma_index_bounds(g, s[i]);
        }
    }
    lemma_len_subset(m.to_set(), full);
    m.unique_seq_to_set();
}

} // verus!
