use vstd::prelude::*;

verus! {

/// A coordinate on the board: `x` is the column, `y` the row.
#[derive(Clone, Copy, Debug, PartialEq, Eq, Structural)]
pub struct Point {
    pub x: i32,
    pub y: i32,
}

/// `p` lies on a board of side `size`.
pub open spec fn on_board(size: int, p: Point) -> bool {
    0 <= p.x < size && 0 <= p.y < size
}

/// `p` and `q` are orthogonal neighbours (diagonals do not count).
pub open spec fn adjacent(p: Point, q: Point) -> bool {
    ||| p.x == q.x && (p.y - q.y == 1 || q.y - p.y == 1)
    ||| p.y == q.y && (p.x - q.x == 1 || q.x - p.x == 1)
}

impl Point {
    pub fn new(x: i32, y: i32) -> (r: Point)
        ensures
            r.x == x,
            r.y == y,
    {
        Point { x, y }
    }

    /// `self` moved by the offset `other`.
    pub fn add(self, other: Point) -> (r: Point)
        requires
            i32::MIN <= self.x + other.x <= i32::MAX,
            i32::MIN <= self.y + other.y <= i32::MAX,
        ensures
            r.x == self.x + other.x,
            r.y == self.y + other.y,
    {
        Point { x: self.x + other.x, y: self.y + other.y }
    }
}

} // verus!
