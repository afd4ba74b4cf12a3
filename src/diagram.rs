use vstd::prelude::*;

use crate::cell_state::CellState;

verus! {

/// What `char::is_whitespace` says of `c`: the Unicode White_Space property.
pub uninterp spec fn white_space(c: char) -> bool;

/// Relies on `char::is_whitespace`, which tells whether `c` has the Unicode
/// White_Space property; it depends on `c` alone.
#[verifier::external_body]
fn is_space(c: char) -> (r: bool)
    ensures
        r == white_space(c),
{
    c.is_whitespace()
}

/// `s` without its leading white space.
pub open spec fn trim_start(s: Seq<char>) -> Seq<char>
    decreases s.len(),
{
    if s.len() > 0 && white_space(s[0]) {
        trim_start(s.drop_first())
    } else {
        s
    }
}

/// `s` without its trailing white space.
pub open spec fn trim_end(s: Seq<char>) -> Seq<char>
    decreases s.len(),
{
    if s.len() > 0 && white_space(s.last()) {
        trim_end(s.drop_last())
    } else {
        s
    }
}

/// `s` without white space at either end.
pub open spec fn trim(s: Seq<char>) -> Seq<char> {
    trim_end(trim_start(s))
}

/// The pieces of `s` between line feeds; as many as there are line feeds, plus one.
pub open spec fn split_lines(s: Seq<char>) -> Seq<Seq<char>>
    decreases s.len(),
{
    if s.len() == 0 {
        seq![Seq::<char>::empty()]
    } else if s.last() == '\n' {
        split_lines(s.drop_last()).push(Seq::<char>::empty())
    } else {
        let r = split_lines(s.drop_last());
        r.update(r.len() - 1, r.last().push(s.last()))
    }
}

/// The point that a character of a diagram stands for.
pub open spec fn cell_of(c: char) -> CellState {
    if c == 'W' || c == 'w' {
        CellState::White
    } else if c == 'B' || c == 'b' {
        CellState::Black
    } else {
        CellState::Empty
    }
}

/// One line of a diagram, read without its surrounding white space.
pub open spec fn row_of(line: Seq<char>) -> Seq<CellState> {
    trim(line).map_values(|c: char| cell_of(c))
}

/// The rows of a diagram: the lines of the text without its surrounding white
/// space; an empty text has no rows.
pub open spec fn diagram_rows(s: Seq<char>) -> Seq<Seq<CellState>> {
    let t = trim(s);
    if t.len() == 0 {
        Seq::empty()
    } else {
        split_lines(t).map_values(|l: Seq<char>| row_of(l))
    }
}

/// The rows describe a square board whose points `i32` coordinates can name.
pub open spec fn is_square(rows: Seq<Seq<CellState>>) -> bool {
    &&& forall|i: int| 0 <= i < rows.len() ==> #[trigger] rows[i].len() == rows.len()
    &&& rows.len() <= i32::MAX
}

pub fn cell_of_char(c: char) -> (r: CellState)
    ensures
        r == cell_of(c),
{
    if c == 'W' || c == 'w' {
        CellState::White
    } else if c == 'B' || c == 'b' {
        CellState::Black
    } else {
        CellState::Empty
    }
}

/// The characters of `s`, in order.
pub fn chars_of(s: &str) -> (r: Vec<char>)
    ensures
        r@ == s@,
{
    let mut v: Vec<char> = Vec::new();
    for c in it: s.chars()
        invariant
            v@ == it.seq().take(it.index() as int),
    {
        v.push(c);
    }
    v
}

/// The bounds of `chars[lo..hi]` without white space at either end.
pub fn trim_bounds(chars: &Vec<char>, lo: usize, hi: usize) -> (r: (usize, usize))
    requires
        lo <= hi <= chars.len(),
    ensures
        lo <= r.0 <= r.1 <= hi,
        chars@.subrange(r.0 as int, r.1 as int) == trim(chars@.subrange(lo as int, hi as int)),
{
    let ghost whole = chars@.subrange(lo as int, hi as int);
    let mut a = lo;
    while a < hi && is_space(chars[a])
        invariant
            lo <= a <= hi <= chars.len(),
            trim_start(whole) == trim_start(chars@.subrange(a as int, hi as int)),
        decreases hi - a,
    {
        assert(chars@.subrange(a as int, hi as int).drop_first() =~= chars@.subrange(a + 1, hi as int));
        a = a + 1;
    }
    let mut b = hi;
    while b > a && is_space(chars[b - 1])
        invariant
            lo <= a <= b <= hi <= chars.len(),
            trim_start(whole) == chars@.subrange(a as int, hi as int),
            trim_end(chars@.subrange(a as int, hi as int)) == trim_end(chars@.subrange(a as int, b as int)),
        decreases b - a,
    {
        assert(chars@.subrange(a as int, b as int).drop_last() =~= chars@.subrange(a as int, b - 1));
        b = b - 1;
    }
    (a, b)
}

/// One row of a diagram: the characters of `chars[lo..hi]` without white space at
/// either end, each read as a point.
pub fn parse_row(chars: &Vec<char>, lo: usize, hi: usize) -> (r: Vec<CellState>)
    requires
        lo <= hi <= chars.len(),
    ensures
        r@ == row_of(chars@.subrange(lo as int, hi as int)),
{
    let (a, b) = trim_bounds(chars, lo, hi);
    let mut row: Vec<CellState> = Vec::new();
    let mut k = a;
    while k < b
        invariant
            a <= k <= b <= chars.len(),
            row@ == chars@.subrange(a as int, k as int).map_values(|c: char| cell_of(c)),
        decreases b - k,
    {
        row.push(cell_of_char(chars[k]));
        assert(chars@.subrange(a as int, k + 1).map_values(|c: char| cell_of(c)) =~= row@);
        k = k + 1;
    }
    row
}

/// The rows of the diagram `s`, as `diagram_rows` gives them.
pub fn parse_rows(s: &str) -> (r: Vec<Vec<CellState>>)
    ensures
        r.len() == diagram_rows(s@).len(),
        forall|k: int| 0 <= k < r.len() ==> #[trigger] r@[k]@ == diagram_rows(s@)[k],
{
    let chars = chars_of(s);
    let (start, end) = trim_bounds(&chars, 0, chars.len());
    assert(chars@.subrange(0, chars.len() as int) =~= s@);
    let ghost t = chars@.subrange(start as int, end as int);
    let mut rows: Vec<Vec<CellState>> = Vec::new();
    if start < end {
        let ghost mut done_lines: Seq<Seq<char>> = Seq::empty();
        let mut ls = start;
        let mut i = start;
        assert(chars@.subrange(start as int, start as int) =~= Seq::<char>::empty());
        while i < end
            invariant
                start <= ls <= i <= end <= chars.len(),
                split_lines(chars@.subrange(start as int, i as int)) == done_lines.push(
                    chars@.subrange(ls as int, i as int),
                ),
                rows.len() == done_lines.len(),
                forall|k: int| 0 <= k < rows.len() ==> #[trigger] rows@[k]@ == row_of(done_lines[k]),
            decreases end - i,
        {
            assert(chars@.subrange(start as int, i + 1).drop_last() =~= chars@.subrange(start as int, i as int));
            if chars[i] == '\n' {
                let row = parse_row(&chars, ls, i);
                rows.push(row);
                proof {
                    done_lines = done_lines.push(chars@.subrange(ls as int, i as int));
                    assert(chars@.subrange(i + 1, i + 1) =~= Seq::<char>::empty());
                }
                ls = i + 1;
            } else {
                assert(chars@.subrange(ls as int, i as int).push(chars@[i as int]) =~= chars@.subrange(ls as int, i + 1));
            }
            i = i + 1;
        }
        let row = parse_row(&chars, ls, end);
        rows.push(row);
        proof {
            done_lines = done_lines.push(chars@.subrange(ls as int, end as int));
            assert(done_lines =~= split_lines(t));
            assert forall|k: int| 0 <= k < rows.len() implies #[trigger] rows@[k]@ == diagram_rows(s@)[k] by {
            }
        }
    } else {
        assert(trim(s@).len() == 0);
    }
    rows
}

} // verus!
